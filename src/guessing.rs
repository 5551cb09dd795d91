use vstd::prelude::*;

verus! {

/// One xorshift round over 64 bits.
pub open spec fn xorshift(seed: u64) -> u64 {
    let a = seed ^ ((seed << 21u64) as u64);
    let b = a ^ (a >> 35u64);
    b ^ ((b << 4u64) as u64)
}

/// Scrambles `seed` by one xorshift round (shifts left by 21, right by 35, left by 4).
pub fn scramble(seed: u64) -> (r: u64)
    ensures
        r == xorshift(seed),
{
    let mut s = seed;
    s ^= s << 21u64;
    s ^= s >> 35u64;
    s ^= s << 4u64;
    s
}

/// The number to guess for `seed`: from one to a hundred.
pub fn secret_number(seed: u64) -> (r: u64)
    ensures
        r == xorshift(seed) % 100 + 1,
        1 <= r <= 100,
{
    scramble(seed) % 100 + 1
}

/// How a guess relates to the number.
#[derive(Debug, Copy, Clone, PartialEq, Eq, Structural)]
pub enum Verdict {
    Correct,
    Greater,
    Lesser,
}

/// Judges `guess` against `number`.
pub fn judge(guess: u64, number: u64) -> (v: Verdict)
    ensures
        v == (if guess == number {
            Verdict::Correct
        } else if guess > number {
            Verdict::Greater
        } else {
            Verdict::Lesser
        }),
{
    if guess == number {
        Verdict::Correct
    } else if guess > number {
        Verdict::Greater
    } else {
        Verdict::Lesser
    }
}

} // verus!
