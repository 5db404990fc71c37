use vstd::prelude::*;

verus! {

/// The number of atomic units in one whole `Decimal` (10^18).
pub const DECIMAL_FRACTIONAL: u128 = 1_000_000_000_000_000_000u128;

/// An amount of one token denomination.
#[derive(Debug, PartialEq, Eq)]
pub struct Coin {
    pub denom: String,
    pub amount: u128,
}

impl Clone for Coin {
    fn clone(&self) -> (r: Self)
        ensures
            r == *self,
    {
        Coin { denom: self.denom.clone(), amount: self.amount }
    }
}

impl DeepView for Coin {
    type V = (Seq<char>, int);

    open spec fn deep_view(&self) -> (Seq<char>, int) {
        (self.denom@, self.amount as int)
    }
}

impl Coin {
    pub fn new(amount: u128, denom: String) -> (r: Coin)
        ensures
            r.denom == denom,
            r.amount == amount,
    {
        Coin { denom, amount }
    }
}

/// A copy of `coins`.
pub fn clone_coins(coins: &Vec<Coin>) -> (r: Vec<Coin>)
    ensures
        r@ == coins@,
{
    let mut r: Vec<Coin> = Vec::new();
    let mut i: usize = 0;
    while i < coins.len()
        invariant
            i <= coins.len(),
            r@ == coins@.take(i as int),
        decreases coins.len() - i,
    {
        r.push(coins[i].clone());
        assert(coins@.take(i + 1) =~= coins@.take(i as int).push(coins@[i as int]));
        i += 1;
    }
    assert(coins@.take(coins.len() as int) =~= coins@);
    r
}

/// A fixed-point decimal with 18 fractional digits, held as its number of
/// atomic units (`atomics / 10^18` is its value).
#[derive(Debug, Clone, Copy, PartialEq, Eq, Structural)]
pub struct Decimal {
    pub atomics: u128,
}

impl Decimal {
    /// The decimal whose atomic units are `atomics`.
    pub fn raw(atomics: u128) -> (r: Decimal)
        ensures
            r.atomics == atomics,
    {
        Decimal { atomics }
    }

    /// `x` percent, that is `x / 100`.
    pub fn percent(x: u64) -> (r: Decimal)
        ensures
            r.atomics == x * 10_000_000_000_000_000,
    {
        Decimal { atomics: (x as u128) * 10_000_000_000_000_000u128 }
    }

    /// The decimal 1.0.
    pub fn one() -> (r: Decimal)
        ensures
            r.atomics == DECIMAL_FRACTIONAL,
    {
        Decimal { atomics: DECIMAL_FRACTIONAL }
    }

    /// The atomic units of this decimal.
    pub fn atomics(&self) -> (r: u128)
        ensures
            r == self.atomics,
    {
        self.atomics
    }

    /// The decimal written out in base ten, as `Display` of cosmwasm_std's
    /// `Decimal` writes it.
    pub fn to_string(&self) -> (r: String)
        ensures
            r@ == decimal_text(self.atomics),
    {
        decimal_to_string(self.atomics)
    }

    /// The smaller of the two decimals (`self` when they are equal).
    pub fn min(self, other: Decimal) -> (r: Decimal)
        ensures
            r.atomics == if self.atomics <= other.atomics { self.atomics } else { other.atomics },
    {
        if self.atomics <= other.atomics {
            self
        } else {
            other
        }
    }
}

/// The decimal digit `d` (0 to 9) as a character.
pub open spec fn digit_char(d: nat) -> char {
    ('0' as nat + d) as char
}

/// `n` written in base ten, without leading zeros.
pub open spec fn decimal_digits(n: nat) -> Seq<char>
    decreases n,
{
    if n < 10 {
        seq![digit_char(n)]
    } else {
        decimal_digits(n / 10).push(digit_char(n % 10))
    }
}

/// `s` padded on the left with `'0'` to at least `width` characters.
pub open spec fn pad_zeros(s: Seq<char>, width: nat) -> Seq<char> {
    if s.len() >= width {
        s
    } else {
        Seq::new((width - s.len()) as nat, |i: int| '0') + s
    }
}

/// `s` without its trailing `'0'` characters.
pub open spec fn trim_zeros(s: Seq<char>) -> Seq<char>
    decreases s.len(),
{
    if s.len() > 0 && s.last() == '0' {
        trim_zeros(s.drop_last())
    } else {
        s
    }
}

/// The text of the decimal with these atomic units: its whole part in base
/// ten, then, when the fraction is not zero, a point and the 18 fractional
/// digits without their trailing zeros.
pub open spec fn decimal_text(atomics: u128) -> Seq<char> {
    let whole = atomics / DECIMAL_FRACTIONAL;
    let fraction = atomics % DECIMAL_FRACTIONAL;
    if fraction == 0 {
        decimal_digits(whole as nat)
    } else {
        decimal_digits(whole as nat) + seq!['.'] + trim_zeros(pad_zeros(decimal_digits(fraction as nat), 18))
    }
}

/// `ToString::to_string` of cosmwasm_std's `Decimal` (its `Display`), on the
/// decimal with these atomic units: the whole part, then, when the fraction
/// is not zero, a point and the fraction padded to 18 digits with its
/// trailing zeros removed.
#[verifier::external_body]
fn decimal_to_string(atomics: u128) -> (r: String)
    ensures
        r@ == decimal_text(atomics),
{
    cosmwasm_std::Decimal::raw(atomics).to_string()
}

/// `amount * atomics / 10^18`, rounded down: an amount of tokens scaled by a
/// decimal.
pub open spec fn mul_floor(amount: int, atomics: int) -> int {
    amount * atomics / (DECIMAL_FRACTIONAL as int)
}

/// `Uint128 * Decimal` of cosmwasm_std: multiplies through a 256-bit
/// intermediate and divides by 10^18, rounding down; it panics only where the
/// quotient does not fit in 128 bits, which `requires` leaves out. The
/// contract claims the exact quotient.
#[verifier::external_body]
fn mul_amount_by_decimal(amount: u128, atomics: u128) -> (r: u128)
    requires
        mul_floor(amount as int, atomics as int) <= u128::MAX,
    ensures
        r == mul_floor(amount as int, atomics as int),
{
    (cosmwasm_std::Uint128::new(amount) * cosmwasm_std::Decimal::raw(atomics)).u128()
}

/// An amount of tokens times a decimal, rounded down.
pub fn mul_decimal(amount: u128, percentage: Decimal) -> (r: u128)
    requires
        mul_floor(amount as int, percentage.atomics as int) <= u128::MAX,
    ensures
        r == mul_floor(amount as int, percentage.atomics as int),
{
    mul_amount_by_decimal(amount, percentage.atomics)
}

} // verus!
