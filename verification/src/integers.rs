//! Machine integers as coefficients.

use vstd::prelude::*;
use crate::curve::{Coefficient, SmallScalar};

verus! {

impl Coefficient for u8 {
    open spec fn vanishes(self) -> bool {
        self == 0
    }

    fn is_zero(self) -> (res: bool) {
        self == 0
    }
}

impl Coefficient for u16 {
    open spec fn vanishes(self) -> bool {
        self == 0
    }

    fn is_zero(self) -> (res: bool) {
        self == 0
    }
}

impl Coefficient for u32 {
    open spec fn vanishes(self) -> bool {
        self == 0
    }

    fn is_zero(self) -> (res: bool) {
        self == 0
    }
}

impl Coefficient for u64 {
    open spec fn vanishes(self) -> bool {
        self == 0
    }

    fn is_zero(self) -> (res: bool) {
        self == 0
    }
}

impl Coefficient for u128 {
    open spec fn vanishes(self) -> bool {
        self == 0
    }

    fn is_zero(self) -> (res: bool) {
        self == 0
    }
}

impl Coefficient for usize {
    open spec fn vanishes(self) -> bool {
        self == 0
    }

    fn is_zero(self) -> (res: bool) {
        self == 0
    }
}

impl Coefficient for i8 {
    open spec fn vanishes(self) -> bool {
        self == 0
    }

    fn is_zero(self) -> (res: bool) {
        self == 0
    }
}

impl Coefficient for i16 {
    open spec fn vanishes(self) -> bool {
        self == 0
    }

    fn is_zero(self) -> (res: bool) {
        self == 0
    }
}

impl Coefficient for i32 {
    open spec fn vanishes(self) -> bool {
        self == 0
    }

    fn is_zero(self) -> (res: bool) {
        self == 0
    }
}

impl Coefficient for i64 {
    open spec fn vanishes(self) -> bool {
        self == 0
    }

    fn is_zero(self) -> (res: bool) {
        self == 0
    }
}

impl Coefficient for i128 {
    open spec fn vanishes(self) -> bool {
        self == 0
    }

    fn is_zero(self) -> (res: bool) {
        self == 0
    }
}

impl Coefficient for isize {
    open spec fn vanishes(self) -> bool {
        self == 0
    }

    fn is_zero(self) -> (res: bool) {
        self == 0
    }
}

impl SmallScalar for u8 {
    open spec fn value(self) -> u64 {
        self as u64
    }

    proof fn vanishes_at_zero(self) {
    }

    fn to_u64(self) -> (res: u64) {
        self as u64
    }
}

impl SmallScalar for u16 {
    open spec fn value(self) -> u64 {
        self as u64
    }

    proof fn vanishes_at_zero(self) {
    }

    fn to_u64(self) -> (res: u64) {
        self as u64
    }
}

impl SmallScalar for u32 {
    open spec fn value(self) -> u64 {
        self as u64
    }

    proof fn vanishes_at_zero(self) {
    }

    fn to_u64(self) -> (res: u64) {
        self as u64
    }
}

impl SmallScalar for u64 {
    open spec fn value(self) -> u64 {
        self
    }

    proof fn vanishes_at_zero(self) {
    }

    fn to_u64(self) -> (res: u64) {
        self
    }
}

} // verus!
