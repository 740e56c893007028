//! Built-in native functions.
use vstd::prelude::*;

verus! {

use crate::error::ErrorV;
use crate::types::{NativeFn, NativeFnV, NativeKind, SymbolId, ValV};

/// Native binding for `+`: two-argument 32-bit integer addition.
pub fn plus_fn() -> (r: NativeFn)
    ensures
        r@ == (NativeFnV { symbol: "+"@, kind: NativeKind::Plus }),
{
    NativeFn { symbol: SymbolId::new("+"), kind: NativeKind::Plus }
}

/// Native binding for `peval`: evaluate one expression in a protected nested
/// execution sharing the caller's environment, catching errors as values.
pub fn peval_fn() -> (r: NativeFn)
    ensures
        r@ == (NativeFnV { symbol: "peval"@, kind: NativeKind::Peval }),
{
    NativeFn { symbol: SymbolId::new("peval"), kind: NativeKind::Peval }
}

/// What `+` returns: the sum of exactly two integers, rejecting any other
/// arguments and any sum outside the 32-bit range.
pub open spec fn plus_spec<E>(args: Seq<ValV<E>>) -> Result<ValV<E>, ErrorV> {
    if args.len() == 2 && args[0] is Int && args[1] is Int {
        let s = args[0]->Int_0 as int + args[1]->Int_0 as int;
        if i32::MIN <= s <= i32::MAX {
            Ok(ValV::Int(s as i32))
        } else {
            Err(ErrorV::UnexpectedArguments("integer overflow in +"@))
        }
    } else {
        Err(ErrorV::UnexpectedArguments("+ expects two integers"@))
    }
}

} // verus!
