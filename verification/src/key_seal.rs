//! The key types a `RobinHoodMap` accepts: those whose hash is a function
//! of their view.
use vstd::prelude::*;

verus! {

pub trait Sealed {}

impl Sealed for String {}

impl<'a> Sealed for &'a str {}

impl Sealed for u32 {}

impl Sealed for u64 {}

impl Sealed for i32 {}

impl Sealed for i64 {}

impl Sealed for usize {}

} // verus!
