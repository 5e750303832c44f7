use vstd::prelude::*;

verus! {

/// A drill-down command: descend into the child with this 1-based index, or go to
/// the parent directory.
#[derive(Clone, Copy, PartialEq, Eq, Debug, Structural)]
pub enum Instruction {
    Index(usize),
    Parent,
}

/// Why a drill-down command was refused.
#[derive(Clone, Copy, PartialEq, Eq, Debug, Structural)]
pub enum InstructionError {
    /// Neither ".." nor a decimal number.
    Invalid,
    /// A number outside `1..=max`.
    OutOfRange,
}

pub open spec fn is_digit(c: char) -> bool {
    '0' <= c && c <= '9'
}

pub open spec fn all_digits(s: Seq<char>) -> bool {
    forall|i: int| 0 <= i < s.len() ==> is_digit(#[trigger] s[i])
}

/// The value of a run of decimal digits.
pub open spec fn digits_value(s: Seq<char>) -> int
    decreases s.len(),
{
    if s.len() == 0 {
        0
    } else {
        10 * digits_value(s.drop_last()) + (s.last() as int - '0' as int)
    }
}

/// The digits of a number as `usize`'s parser takes it: an optional `+`, then at
/// least one digit.
pub open spec fn number_digits(s: Seq<char>) -> Seq<char> {
    if s.len() > 0 && s[0] == '+' {
        s.drop_first()
    } else {
        s
    }
}

/// `s` is a decimal number whose value fits in `usize`.
pub open spec fn is_number(s: Seq<char>) -> bool {
    let d = number_digits(s);
    d.len() > 0 && all_digits(d) && digits_value(d) <= usize::MAX
}

pub proof fn lemma_digits_value_nonneg(s: Seq<char>)
    requires
        all_digits(s),
    ensures
        digits_value(s) >= 0,
    decreases s.len(),
{
    if s.len() > 0 {
        lemma_digits_value_nonneg(s.drop_last());
    }
}

/// Reads a drill-down command (already trimmed) for a list of `max` children.
pub fn parse_instruction(input: &str, max: usize) -> (r: Result<Instruction, InstructionError>)
    ensures
        input@ == ".."@ ==> r == Ok::<Instruction, InstructionError>(Instruction::Parent),
        input@ != ".."@ && !is_number(input@) ==> r == Err::<Instruction, InstructionError>(
            InstructionError::Invalid,
        ),
        input@ != ".."@ && is_number(input@) ==> {
            let n = digits_value(number_digits(input@));
            &&& 1 <= n <= max ==> r == Ok::<Instruction, InstructionError>(Instruction::Index(n as usize))
            &&& !(1 <= n <= max) ==> r == Err::<Instruction, InstructionError>(
                InstructionError::OutOfRange,
            )
        },
{
    proof {
        reveal_strlit("..");
    }
    let len = input.unicode_len();
    if len == 2 && input.get_char(0) == '.' && input.get_char(1) == '.' {
        assert(input@ =~= ".."@);
        return Ok(Instruction::Parent);
    }
    assert(input@ != ".."@) by {
        if input@ == ".."@ {
            assert(input@[0] == '.' && input@[1] == '.');
        }
    };
    let mut start: usize = 0;
    if len > 0 && input.get_char(0) == '+' {
        start = 1;
    }
    let ghost d = number_digits(input@);
    assert(d =~= input@.skip(start as int));
    if start == len {
        return Err(InstructionError::Invalid);
    }
    let mut value: usize = 0;
    let mut i: usize = start;
    while i < len
        invariant
            len == input@.len(),
            input@ != ".."@,
            start <= i <= len,
            start == (if len > 0 && input@[0] == '+' {
                1usize
            } else {
                0usize
            }),
            d == input@.skip(start as int),
            d == number_digits(input@),
            all_digits(d.take(i - start)),
            value as int == digits_value(d.take(i - start)),
        decreases len - i,
    {
        let c = input.get_char(i);
        proof {
            assert(d.take(i + 1 - start).drop_last() =~= d.take(i - start));
            assert(d.take(i + 1 - start).last() == c);
        }
        if !('0' <= c && c <= '9') {
            assert(!all_digits(d)) by {
                assert(d[i - start] == c);
            };
            return Err(InstructionError::Invalid);
        }
        let digit = ((c as u32) - ('0' as u32)) as usize;
        if value > (usize::MAX - digit) / 10 {
            proof {
                assert(digit as int == c as int - '0' as int);
                assert(digits_value(d.take(i + 1 - start)) == 10 * value + digit);
                lemma_digits_prefix_bound(d, (i + 1 - start) as int);
                assert(digits_value(d.take(i + 1 - start)) > usize::MAX) by (nonlinear_arith)
                    requires
                        digits_value(d.take(i + 1 - start)) == 10 * value + digit,
                        value > (usize::MAX - digit) / 10,
                        digit <= 9,
                ;
            }
            return Err(InstructionError::Invalid);
        }
        value = value * 10 + digit;
        i = i + 1;
    }
    assert(d.take(len - start) =~= d);
    if 1 <= value && value <= max {
        Ok(Instruction::Index(value))
    } else {
        Err(InstructionError::OutOfRange)
    }
}

/// A number's value is at least that of any run of its leading digits.
proof fn lemma_digits_prefix_bound(d: Seq<char>, k: int)
    requires
        0 <= k <= d.len(),
    ensures
        all_digits(d) ==> digits_value(d) >= digits_value(d.take(k)),
    decreases d.len(),
{
    if all_digits(d) && k < d.len() {
        lemma_digits_prefix_bound(d.drop_last(), k);
        assert(d.drop_last().take(k) =~= d.take(k));
        lemma_digits_value_nonneg(d.drop_last());
    } else if k == d.len() {
        assert(d.take(k) =~= d);
    }
}

} // verus!
