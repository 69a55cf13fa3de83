//! Even/odd and Fizz-Buzz classification, and sums and maxima over a list of
//! numbers.
use vstd::prelude::*;

verus! {

/// Tells whether an integer is even.
pub fn is_even(n: i32) -> (r: bool)
    ensures
        r == (n % 2 == 0),
{
    n % 2 == 0
}

/// How one number is reported: divisibility by three and five first, parity
/// otherwise.
#[derive(PartialEq, Eq, Structural, Clone, Copy, Debug)]
pub enum NumberClass {
    FizzBuzz,
    Fizz,
    Buzz,
    Even,
    Odd,
}

/// The class a number falls in.
pub open spec fn class_of(n: i32) -> NumberClass {
    if n % 3 == 0 && n % 5 == 0 {
        NumberClass::FizzBuzz
    } else if n % 3 == 0 {
        NumberClass::Fizz
    } else if n % 5 == 0 {
        NumberClass::Buzz
    } else if n % 2 == 0 {
        NumberClass::Even
    } else {
        NumberClass::Odd
    }
}

/// Classifies one number for the report.
pub fn classify_number(n: i32) -> (r: NumberClass)
    ensures
        r == class_of(n),
{
    if n % 3 == 0 && n % 5 == 0 {
        NumberClass::FizzBuzz
    } else if n % 3 == 0 {
        NumberClass::Fizz
    } else if n % 5 == 0 {
        NumberClass::Buzz
    } else if n % 2 == 0 {
        NumberClass::Even
    } else {
        NumberClass::Odd
    }
}

/// The sum of the numbers.
pub open spec fn sum_of(s: Seq<i32>) -> int
    decreases s.len(),
{
    if s.len() == 0 {
        0
    } else {
        sum_of(s.drop_last()) + s.last() as int
    }
}

/// Adds the numbers left to right, as the report does. Every partial sum
/// must stay within machine range.
pub fn sum_numbers(numbers: &Vec<i32>) -> (total: i32)
    requires
        forall|i: int|
            0 <= i <= numbers@.len() ==> i32::MIN <= sum_of(#[trigger] numbers@.take(i))
                <= i32::MAX,
    ensures
        total as int == sum_of(numbers@),
{
    let mut total: i32 = 0;
    let mut i: usize = 0;
    proof {
        assert(numbers@.take(0) =~= Seq::<i32>::empty());
    }
    while i < numbers.len()
        invariant
            i <= numbers@.len(),
            total as int == sum_of(numbers@.take(i as int)),
            forall|t: int|
                0 <= t <= numbers@.len() ==> i32::MIN <= sum_of(#[trigger] numbers@.take(t))
                    <= i32::MAX,
        decreases numbers@.len() - i,
    {
        proof {
            assert(numbers@.take(i as int + 1).drop_last() =~= numbers@.take(i as int));
            assert(numbers@.take(i as int + 1).last() == numbers@[i as int]);
        }
        total = total + numbers[i];
        i += 1;
    }
    proof {
        assert(numbers@.take(numbers@.len() as int) =~= numbers@);
    }
    total
}

/// The largest number of a non-empty list.
pub fn largest_number(numbers: &Vec<i32>) -> (m: i32)
    requires
        numbers@.len() > 0,
    ensures
        numbers@.contains(m),
        forall|i: int| 0 <= i < numbers@.len() ==> numbers@[i] <= m,
{
    let mut largest = numbers[0];
    let mut i: usize = 1;
    while i < numbers.len()
        invariant
            1 <= i <= numbers@.len(),
            exists|t: int| 0 <= t < i && numbers@[t] == largest,
            forall|t: int| 0 <= t < i ==> numbers@[t] <= largest,
        decreases numbers@.len() - i,
    {
        if numbers[i] > largest {
            largest = numbers[i];
        }
        i += 1;
    }
    proof {
        let t = choose|t: int| 0 <= t < numbers@.len() && numbers@[t] == largest;
        assert(numbers@.contains(largest));
    }
    largest
}

} // verus!
