use vstd::prelude::*;
use crate::number::{Number, make};
use crate::value::{ClockFunction, Value, Val, clock_text};

verus! {

/// Why a native call failed.
#[derive(Clone, Copy, Debug, PartialEq, Eq, Structural)]
pub enum NativeError {
    /// The call gave a number of arguments other than the function's arity.
    ArityMismatch,
    /// The system clock reads before the Unix epoch, or too far after it.
    ClockUnavailable,
}

/// Nanoseconds in a second.
pub const NANOS_PER_SECOND: u64 = 1_000_000_000;

/// Relies on `SystemTime::elapsed` on `UNIX_EPOCH`: the time since the Unix
/// epoch as whole seconds and the nanoseconds beyond them (fewer than a
/// billion), or `None` when the clock reads before the epoch.
#[verifier::external_body]
fn unix_time() -> (r: Option<(u64, u32)>)
    ensures
        r matches Some(t) ==> t.1 < NANOS_PER_SECOND,
{
    match std::time::UNIX_EPOCH.elapsed() {
        Ok(d) => Some((d.as_secs(), d.subsec_nanos())),
        Err(_) => None,
    }
}

/// The clock's reading as a number of seconds, exact to the nanosecond.
pub open spec fn clock_reading(secs: u64, nanos: u32) -> Option<Number> {
    make(secs * NANOS_PER_SECOND + nanos, NANOS_PER_SECOND as int)
}

/// `secs + nanos / 10^9` as a number; `None` when it does not fit.
pub fn clock_seconds(secs: u64, nanos: u32) -> (r: Option<Number>)
    requires
        nanos < NANOS_PER_SECOND,
    ensures
        r == clock_reading(secs, nanos),
{
    let total: i128 = secs as i128 * 1_000_000_000 + nanos as i128;
    Number::new_wide(total, 1_000_000_000)
}

/// A function provided by the host, reachable from scripts through a
/// global binding: it takes a fixed number of arguments and computes a value.
pub trait NativeFunction {
    /// The number of arguments it takes.
    spec fn spec_arity(&self) -> nat;

    /// The name under which it is shown.
    spec fn spec_name(&self) -> Seq<char>;

    fn arity(&self) -> (r: usize)
        ensures
            r == self.spec_arity(),
    ;

    /// Calls the function. A call with a number of arguments other than the
    /// arity fails with `ArityMismatch`; one with the right number never does.
    fn call(&self, arguments: &Vec<Value>) -> (r: Result<Value, NativeError>)
        ensures
            arguments@.len() != self.spec_arity() ==> r == Err::<Value, NativeError>(NativeError::ArityMismatch),
            arguments@.len() == self.spec_arity() ==> r != Err::<Value, NativeError>(NativeError::ArityMismatch),
    ;

    /// The name under which it is shown.
    fn to_string(&self) -> (r: String)
        ensures
            r@ == self.spec_name(),
    ;
}

impl ClockFunction {
    /// Reads the clock: the seconds since the Unix epoch, exact to the
    /// nanosecond, as some reading of the clock gives them.
    pub fn read(&self) -> (r: Result<Value, NativeError>)
        ensures
            r != Err::<Value, NativeError>(NativeError::ArityMismatch),
            r matches Ok(v) ==> exists|s: u64, ns: u32|
                #![trigger clock_reading(s, ns)]
                ns < NANOS_PER_SECOND && clock_reading(s, ns) is Some && v@ == Val::Number(
                    clock_reading(s, ns)->0,
                ),
    {
        match unix_time() {
            Some((secs, nanos)) => match clock_seconds(secs, nanos) {
                Some(n) => {
                    assert(clock_reading(secs, nanos) is Some);
                    Ok(Value::Number(n))
                },
                None => Err(NativeError::ClockUnavailable),
            },
            None => Err(NativeError::ClockUnavailable),
        }
    }
}

impl NativeFunction for ClockFunction {
    open spec fn spec_arity(&self) -> nat {
        0
    }

    open spec fn spec_name(&self) -> Seq<char> {
        clock_text()
    }

    /// The clock takes no arguments.
    fn arity(&self) -> (r: usize) {
        0
    }

    /// Calls the clock: the seconds since the Unix epoch.
    fn call(&self, arguments: &Vec<Value>) -> (r: Result<Value, NativeError>) {
        if arguments.len() != 0 {
            return Err(NativeError::ArityMismatch);
        }
        self.read()
    }

    /// The name under which the clock is shown.
    fn to_string(&self) -> (r: String) {
        let s = "native fn clock()".to_string();
        proof {
            reveal_strlit("native fn clock()");
        }
        assert(s@ =~= clock_text());
        s
    }
}

} // verus!
