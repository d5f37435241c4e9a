//! The symbol widths an input can be read in.

use vstd::prelude::*;
use vstd::std_specs::hash::obeys_key_model;

verus! {

/// One more than the largest number that fits in `bytes` bytes.
pub open spec fn symbol_limit(bytes: nat) -> nat
    decreases bytes,
{
    if bytes == 0 {
        1
    } else {
        256 * symbol_limit((bytes - 1) as nat)
    }
}

/// `symbol_limit` grows with the width.
pub proof fn lemma_symbol_limit_grows(a: nat, b: nat)
    requires
        a <= b,
    ensures
        1 <= symbol_limit(a) <= symbol_limit(b),
    decreases b,
{
    if a < b {
        lemma_symbol_limit_grows(a, (b - 1) as nat);
    } else if a > 0 {
        lemma_symbol_limit_grows((a - 1) as nat, (a - 1) as nat);
    }
}

/// Sixteen bytes hold exactly the numbers of a `u128`.
pub proof fn lemma_symbol_limit_16()
    ensures
        symbol_limit(1) == 0x100,
        symbol_limit(2) == 0x1_0000,
        symbol_limit(4) == 0x1_0000_0000,
        symbol_limit(8) == 0x1_0000_0000_0000_0000,
        symbol_limit(16) == 0x1_0000_0000_0000_0000_0000_0000_0000_0000,
{
    reveal_with_fuel(symbol_limit, 17);
}

/// An unsigned symbol of a fixed number of bytes.
///
/// A symbol stands for one number, `value`, below `symbol_limit(BYTES)`, and two
/// symbols with the same number are the same symbol.
pub trait NumBytes: Copy + Sized {
    /// The number of input bytes that make up one symbol.
    const BYTES: u8;

    /// The number the symbol stands for.
    spec fn value(self) -> nat;

    /// A symbol takes between one and sixteen bytes.
    proof fn lemma_width()
        ensures
            1 <= Self::BYTES <= 16,
    ;

    /// The number of a symbol fits in its width.
    proof fn lemma_value_fits(self)
        ensures
            self.value() < symbol_limit(Self::BYTES as nat),
    ;

    /// Symbols are told apart by their numbers.
    proof fn lemma_value_injective(a: Self, b: Self)
        requires
            a.value() == b.value(),
        ensures
            a == b,
    ;

    /// Symbols can key the hash maps of the standard library.
    proof fn lemma_key_model()
        ensures
            obeys_key_model::<Self>(),
    ;

    /// The symbol as a number.
    fn to_u128(self) -> (r: u128)
        ensures
            r == self.value(),
    ;

    /// The symbol that stands for `v`.
    fn from_u128(v: u128) -> (r: Self)
        requires
            v < symbol_limit(Self::BYTES as nat),
        ensures
            r.value() == v,
    ;
}

impl NumBytes for u8 {
    const BYTES: u8 = 1;

    open spec fn value(self) -> nat {
        self as nat
    }

    proof fn lemma_width() {
    }

    proof fn lemma_value_fits(self) {
        lemma_symbol_limit_16();
    }

    proof fn lemma_value_injective(a: Self, b: Self) {
    }

    proof fn lemma_key_model() {
    }

    fn to_u128(self) -> (r: u128) {
        self as u128
    }

    fn from_u128(v: u128) -> (r: Self) {
        proof {
            lemma_symbol_limit_16();
        }
        v as u8
    }
}

impl NumBytes for u16 {
    const BYTES: u8 = 2;

    open spec fn value(self) -> nat {
        self as nat
    }

    proof fn lemma_width() {
    }

    proof fn lemma_value_fits(self) {
        lemma_symbol_limit_16();
    }

    proof fn lemma_value_injective(a: Self, b: Self) {
    }

    proof fn lemma_key_model() {
    }

    fn to_u128(self) -> (r: u128) {
        self as u128
    }

    fn from_u128(v: u128) -> (r: Self) {
        proof {
            lemma_symbol_limit_16();
        }
        v as u16
    }
}

impl NumBytes for u32 {
    const BYTES: u8 = 4;

    open spec fn value(self) -> nat {
        self as nat
    }

    proof fn lemma_width() {
    }

    proof fn lemma_value_fits(self) {
        lemma_symbol_limit_16();
    }

    proof fn lemma_value_injective(a: Self, b: Self) {
    }

    proof fn lemma_key_model() {
    }

    fn to_u128(self) -> (r: u128) {
        self as u128
    }

    fn from_u128(v: u128) -> (r: Self) {
        proof {
            lemma_symbol_limit_16();
        }
        v as u32
    }
}

impl NumBytes for u64 {
    const BYTES: u8 = 8;

    open spec fn value(self) -> nat {
        self as nat
    }

    proof fn lemma_width() {
    }

    proof fn lemma_value_fits(self) {
        lemma_symbol_limit_16();
    }

    proof fn lemma_value_injective(a: Self, b: Self) {
    }

    proof fn lemma_key_model() {
    }

    fn to_u128(self) -> (r: u128) {
        self as u128
    }

    fn from_u128(v: u128) -> (r: Self) {
        proof {
            lemma_symbol_limit_16();
        }
        v as u64
    }
}

impl NumBytes for u128 {
    const BYTES: u8 = 16;

    open spec fn value(self) -> nat {
        self as nat
    }

    proof fn lemma_width() {
    }

    proof fn lemma_value_fits(self) {
        lemma_symbol_limit_16();
    }

    proof fn lemma_value_injective(a: Self, b: Self) {
    }

    proof fn lemma_key_model() {
    }

    fn to_u128(self) -> (r: u128) {
        self
    }

    fn from_u128(v: u128) -> (r: Self) {
        v
    }
}

/// The numbers of the symbols.
pub open spec fn symbol_numbers<T: NumBytes>(symbols: Seq<T>) -> Seq<nat> {
    Seq::new(symbols.len(), |i: int| symbols[i].value())
}

/// Whether two symbols are the same.
pub fn same_symbol<T: NumBytes>(a: T, b: T) -> (r: bool)
    ensures
        r == (a == b),
{
    let r = a.to_u128() == b.to_u128();
    proof {
        if r {
            T::lemma_value_injective(a, b);
        }
    }
    r
}

} // verus!
