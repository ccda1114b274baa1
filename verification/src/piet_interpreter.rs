//! The commands of a Piet stack machine and what each does to the stack,
//! the input and the output.

use crate::integer::{div_toward_zero, int_decimal, Integer};
use crate::io::ByteInput;
use vstd::prelude::*;

verus! {

/// A command of the Piet stack machine.
pub enum CMD {
    Nop,
    Push(Integer),
    Pop,
    Add,
    Sub,
    Mul,
    Div,
    Mod,
    Not,
    Greater,
    Dup,
    Roll,
    InN,
    InC,
    OutN,
    OutC,
    Pointer,
    Switch,
}

/// A command with its pushed number as a mathematical integer.
pub enum Op {
    Nop,
    Push(int),
    Pop,
    Add,
    Sub,
    Mul,
    Div,
    Mod,
    Not,
    Greater,
    Dup,
    Roll,
    InN,
    InC,
    OutN,
    OutC,
    Pointer,
    Switch,
}

impl View for CMD {
    type V = Op;

    open spec fn view(&self) -> Op {
        match self {
            CMD::Nop => Op::Nop,
            CMD::Push(v) => Op::Push(v@),
            CMD::Pop => Op::Pop,
            CMD::Add => Op::Add,
            CMD::Sub => Op::Sub,
            CMD::Mul => Op::Mul,
            CMD::Div => Op::Div,
            CMD::Mod => Op::Mod,
            CMD::Not => Op::Not,
            CMD::Greater => Op::Greater,
            CMD::Dup => Op::Dup,
            CMD::Roll => Op::Roll,
            CMD::InN => Op::InN,
            CMD::InC => Op::InC,
            CMD::OutN => Op::OutN,
            CMD::OutC => Op::OutC,
            CMD::Pointer => Op::Pointer,
            CMD::Switch => Op::Switch,
        }
    }
}

/// The values of a stack of integers, bottom first.
pub open spec fn values(s: Seq<Integer>) -> Seq<int> {
    s.map_values(|x: Integer| x@)
}

/// `s` with its last `k` elements moved to the front.
pub open spec fn rotate_right<A>(s: Seq<A>, k: int) -> Seq<A> {
    s.subrange(s.len() - k, s.len() as int) + s.subrange(0, s.len() - k)
}

/// Whether `b` is an ASCII decimal digit.
pub open spec fn is_digit_byte(b: u8) -> bool {
    48 <= b <= 57
}

/// Number of ASCII digits at the front of `s`.
pub open spec fn digit_run(s: Seq<u8>) -> nat
    decreases s.len(),
{
    if s.len() > 0 && is_digit_byte(s[0]) {
        1 + digit_run(s.drop_first())
    } else {
        0
    }
}

/// Value of a sequence of ASCII digits read in decimal.
pub open spec fn decimal_value(s: Seq<u8>) -> nat
    decreases s.len(),
{
    if s.len() == 0 {
        0
    } else {
        10 * decimal_value(s.drop_last()) + (s.last() - 48) as nat
    }
}

/// Whether `v` is the code of a Unicode scalar value.
pub open spec fn is_char_code(v: int) -> bool {
    (0 <= v < 0xD800) || (0xE000 <= v <= 0x10FFFF)
}

/// The character whose code is `v`.
pub open spec fn char_of_code(v: int) -> char {
    choose|c: char| #[trigger] char_code(c) == v
}

/// The code of a character.
pub open spec fn char_code(c: char) -> int {
    c as int
}

/// Whether executing `c` on stack `s` with input `input` aborts the machine.
pub open spec fn cmd_crashes(c: Op, s: Seq<int>, input: Seq<u8>) -> bool {
    let n = s.len();
    match c {
        Op::Div => n >= 2 && s[n - 2] != 0 && s[n - 1] == 0,
        Op::Roll => n >= 2 && s[n - 2] >= 0 && {
            let b = s[n - 2];
            let a = s[n - 1];
            b == 0 || b > usize::MAX || (a % b != 0 && b > n - 2)
        },
        Op::OutC => n >= 1 && !is_char_code(s[n - 1]),
        Op::Pointer => true,
        Op::Switch => true,
        _ => false,
    }
}

/// The stack after a binary command: the two top values `b` (below) and `a`
/// (top) are replaced by `f(b, a)`.
pub open spec fn binary_result(s: Seq<int>, v: int) -> Seq<int> {
    s.subrange(0, s.len() - 2).push(v)
}

/// What executing `c` does when it does not abort: the new stack, the input
/// left, the characters written, and whether the command was accepted
/// (a refused command may still have popped values, as `Div` and `Mod` do).
pub open spec fn cmd_effect(c: Op, s: Seq<int>, input: Seq<u8>) -> (Seq<int>, Seq<u8>, Seq<char>, bool) {
    let n = s.len();
    let none = Seq::<char>::empty();
    match c {
        Op::Nop => (s, input, none, true),
        Op::Push(v) => (s.push(v), input, none, true),
        Op::Pop => if n < 1 {
            (s, input, none, false)
        } else {
            (s.drop_last(), input, none, true)
        },
        Op::Add => if n < 2 {
            (s, input, none, false)
        } else {
            (binary_result(s, s[n - 2] + s[n - 1]), input, none, true)
        },
        Op::Sub => if n < 2 {
            (s, input, none, false)
        } else {
            (binary_result(s, s[n - 2] - s[n - 1]), input, none, true)
        },
        Op::Mul => if n < 2 {
            (s, input, none, false)
        } else {
            (binary_result(s, s[n - 2] * s[n - 1]), input, none, true)
        },
        Op::Div => if n < 2 {
            (s, input, none, false)
        } else if s[n - 2] == 0 {
            (s.subrange(0, n - 2), input, none, false)
        } else {
            (binary_result(s, div_toward_zero(s[n - 2], s[n - 1])), input, none, true)
        },
        Op::Mod => if n < 2 {
            (s, input, none, false)
        } else if s[n - 1] == 0 {
            (s.subrange(0, n - 2), input, none, false)
        } else {
            (binary_result(s, s[n - 2] % s[n - 1]), input, none, true)
        },
        Op::Not => if n < 1 {
            (s, input, none, false)
        } else {
            (s.drop_last().push(if s[n - 1] == 0 { 1 } else { 0 }), input, none, true)
        },
        Op::Greater => if n < 2 {
            (s, input, none, false)
        } else {
            (binary_result(s, if s[n - 2] > s[n - 1] { 1 } else { 0 }), input, none, true)
        },
        Op::Dup => if n < 1 {
            (s, input, none, false)
        } else {
            (s.push(s[n - 1]), input, none, true)
        },
        Op::Roll => if n < 2 || s[n - 2] < 0 {
            (s, input, none, false)
        } else {
            let b = s[n - 2];
            let k = s[n - 1] % b;
            let rest = s.subrange(0, n - 2);
            if k == 0 {
                (rest, input, none, true)
            } else {
                (rest.subrange(0, rest.len() - b) + rotate_right(
                    rest.subrange(rest.len() - b, rest.len() as int),
                    k,
                ), input, none, true)
            }
        },
        Op::InN => {
            let d = digit_run(input);
            if d == 0 {
                (s.push(-1), input, none, true)
            } else {
                (s.push(decimal_value(input.take(d as int)) as int), input.skip(d as int), none, true)
            }
        },
        Op::InC => if input.len() == 0 {
            (s.push(-1), input, none, true)
        } else {
            (s.push(input[0] as int), input.drop_first(), none, true)
        },
        Op::OutN => if n < 1 {
            (s, input, none, false)
        } else {
            (s.drop_last(), input, int_decimal(s[n - 1]), true)
        },
        Op::OutC => if n < 1 {
            (s, input, none, false)
        } else {
            (s.drop_last(), input, seq![char_of_code(s[n - 1])], true)
        },
        Op::Pointer => (s, input, none, false),
        Op::Switch => (s, input, none, false),
    }
}

/// The name a command is written with in stack programs (empty for `Nop`).
pub open spec fn cmd_name(c: Op) -> Seq<char> {
    match c {
        Op::Nop => seq![],
        Op::Push(_) => seq!['p', 'u', 's', 'h'],
        Op::Pop => seq!['p', 'o', 'p'],
        Op::Add => seq!['a', 'd', 'd'],
        Op::Sub => seq!['s', 'u', 'b'],
        Op::Mul => seq!['m', 'u', 'l'],
        Op::Div => seq!['d', 'i', 'v'],
        Op::Mod => seq!['m', 'o', 'd'],
        Op::Not => seq!['n', 'o', 't'],
        Op::Greater => seq!['g', 'r', 'e', 'a', 't', 'e', 'r'],
        Op::Dup => seq!['d', 'u', 'p'],
        Op::Roll => seq!['r', 'o', 'l', 'l'],
        Op::InN => seq!['i', 'n', 'N'],
        Op::InC => seq!['i', 'n', 'C'],
        Op::OutN => seq!['o', 'u', 't', 'N'],
        Op::OutC => seq!['o', 'u', 't', 'C'],
        Op::Pointer => seq![],
        Op::Switch => seq![],
    }
}

/// The character with code `v`, computed by `char::from_u32`: `None`
/// exactly when `v` is not a Unicode scalar value.
#[verifier::external_body]
fn char_from_code(v: u32) -> (r: Option<char>)
    ensures
        r is Some <==> is_char_code(v as int),
        r matches Some(c) ==> c as int == v as int && c == char_of_code(v as int),
{
    char::from_u32(v)
}

/// Appends the characters of `text` to `out`.
pub fn append_chars(out: &mut Vec<char>, text: &Vec<char>)
    ensures
        final(out)@ == old(out)@ + text@,
{
    let mut i: usize = 0;
    while i < text.len()
        invariant
            i <= text@.len(),
            out@ == old(out)@ + text@.take(i as int),
        decreases text@.len() - i,
    {
        out.push(text[i]);
        i = i + 1;
        assert(text@.take(i as int) =~= text@.take(i - 1).push(text@[i - 1]));
    }
    assert(text@.take(i as int) =~= text@);
}

/// Reads the ASCII digits at the front of `input` and returns their value,
/// or `None` when the input does not start with a digit.
fn read_number(input: &mut ByteInput) -> (r: Option<Integer>)
    ensures
        digit_run(old(input)@) == 0 ==> r is None && final(input)@ == old(input)@,
        digit_run(old(input)@) > 0 ==> {
            &&& r matches Some(v) && v@ == decimal_value(old(input)@.take(digit_run(old(input)@) as int))
            &&& final(input)@ == old(input)@.skip(digit_run(old(input)@) as int)
        },
{
    let _ = input.peek();
    let ghost start = input@;
    let mut value = Integer::from_i64(0);
    let ten = Integer::from_i64(10);
    let mut count: usize = 0;
    loop
        invariant_except_break
            count <= digit_run(start),
            start.len() >= count,
            start.len() <= usize::MAX,
            input@ == start.skip(count as int),
            value@ == decimal_value(start.take(count as int)),
            ten@ == 10,
        ensures
            count == digit_run(start),
            input@ == start.skip(count as int),
            value@ == decimal_value(start.take(count as int)),
        decreases input@.len(),
    {
        proof {
            lemma_digit_run_skip(start, count as nat);
        }
        match input.peek() {
            Some(b) => {
                if 48 <= b && b <= 57 {
                    input.next();
                    let d = Integer::from_i64((b - 48) as i64);
                    value = value.mul(&ten).add(&d);
                    proof {
                        let t = start.take(count + 1);
                        assert(t.drop_last() =~= start.take(count as int));
                        assert(t.last() == b);
                        assert(input@ =~= start.skip(count + 1));
                    }
                    count = count + 1;
                } else {
                    break;
                }
            },
            None => {
                break;
            },
        }
    }
    if count == 0 {
        None
    } else {
        Some(value)
    }
}

/// The digit run of `s` counts `k` more digits after its first `k`.
proof fn lemma_digit_run_skip(s: Seq<u8>, k: nat)
    requires
        k <= digit_run(s),
        k <= s.len(),
    ensures
        digit_run(s) == k + digit_run(s.skip(k as int)),
    decreases k,
{
    if k > 0 {
        assert(s.len() > 0 && is_digit_byte(s[0]));
        lemma_digit_run_skip(s.drop_first(), (k - 1) as nat);
        assert(s.drop_first().skip(k - 1) =~= s.skip(k as int));
    } else {
        assert(s.skip(0) =~= s);
    }
}

impl CMD {
    /// A copy of the command.
    pub fn copy(&self) -> (r: CMD)
        ensures
            r@ == self@,
    {
        match self {
            CMD::Nop => CMD::Nop,
            CMD::Push(v) => CMD::Push(v.copy()),
            CMD::Pop => CMD::Pop,
            CMD::Add => CMD::Add,
            CMD::Sub => CMD::Sub,
            CMD::Mul => CMD::Mul,
            CMD::Div => CMD::Div,
            CMD::Mod => CMD::Mod,
            CMD::Not => CMD::Not,
            CMD::Greater => CMD::Greater,
            CMD::Dup => CMD::Dup,
            CMD::Roll => CMD::Roll,
            CMD::InN => CMD::InN,
            CMD::InC => CMD::InC,
            CMD::OutN => CMD::OutN,
            CMD::OutC => CMD::OutC,
            CMD::Pointer => CMD::Pointer,
            CMD::Switch => CMD::Switch,
        }
    }

    /// The name the command is written with (empty for `Nop`); the
    /// direction commands `Pointer` and `Switch` have none.
    pub fn cmd_str(self) -> (r: String)
        requires
            !(self is Pointer),
            !(self is Switch),
        ensures
            r@ == cmd_name(self@),
    {
        let s: &str = match self {
            CMD::Nop => {
                proof { reveal_strlit(""); }
                ""
            },
            CMD::Push(_) => {
                proof { reveal_strlit("push"); }
                "push"
            },
            CMD::Pop => {
                proof { reveal_strlit("pop"); }
                "pop"
            },
            CMD::Add => {
                proof { reveal_strlit("add"); }
                "add"
            },
            CMD::Sub => {
                proof { reveal_strlit("sub"); }
                "sub"
            },
            CMD::Mul => {
                proof { reveal_strlit("mul"); }
                "mul"
            },
            CMD::Div => {
                proof { reveal_strlit("div"); }
                "div"
            },
            CMD::Mod => {
                proof { reveal_strlit("mod"); }
                "mod"
            },
            CMD::Not => {
                proof { reveal_strlit("not"); }
                "not"
            },
            CMD::Greater => {
                proof { reveal_strlit("greater"); }
                "greater"
            },
            CMD::Dup => {
                proof { reveal_strlit("dup"); }
                "dup"
            },
            CMD::Roll => {
                proof { reveal_strlit("roll"); }
                "roll"
            },
            CMD::InN => {
                proof { reveal_strlit("inN"); }
                "inN"
            },
            CMD::InC => {
                proof { reveal_strlit("inC"); }
                "inC"
            },
            CMD::OutN => {
                proof { reveal_strlit("outN"); }
                "outN"
            },
            CMD::OutC => {
                proof { reveal_strlit("outC"); }
                "outC"
            },
            CMD::Pointer => {
                proof { reveal_strlit(""); }
                ""
            },
            CMD::Switch => {
                proof { reveal_strlit(""); }
                ""
            },
        };
        String::from_str(s)
    }

    /// Whether executing the command on this stack and input would abort.
    pub fn crashes(&self, stack: &Vec<Integer>, input: &ByteInput) -> (r: bool)
        ensures
            r == cmd_crashes(self@, values(stack@), input@),
    {
        let n = stack.len();
        let ghost s = values(stack@);
        match self {
            CMD::Div => {
                if n >= 2 {
                    let zero = Integer::from_i64(0);
                    !stack[n - 2].equals(&zero) && stack[n - 1].equals(&zero)
                } else {
                    false
                }
            },
            CMD::Roll => {
                if n >= 2 {
                    let zero = Integer::from_i64(0);
                    let b = &stack[n - 2];
                    let a = &stack[n - 1];
                    if b.less_than(&zero) {
                        false
                    } else if b.equals(&zero) {
                        true
                    } else {
                        match b.to_usize() {
                            None => true,
                            Some(bu) => {
                                let k = a.rem_euclid(b);
                                !k.equals(&zero) && bu > n - 2
                            },
                        }
                    }
                } else {
                    false
                }
            },
            CMD::OutC => {
                if n >= 1 {
                    match stack[n - 1].to_u32() {
                        None => true,
                        Some(v) => char_from_code(v).is_none(),
                    }
                } else {
                    false
                }
            },
            CMD::Pointer => true,
            CMD::Switch => true,
            _ => false,
        }
    }

    /// Executes the command: returns `None` when the command is refused for
    /// lack of operands (or for a zero dividend or modulus), `Some(())`
    /// otherwise.
    #[verifier::spinoff_prover]
    #[verifier::rlimit(50)]
    pub fn interpret_result(
        self,
        stack: &mut Vec<Integer>,
        input: &mut ByteInput,
        output: &mut Vec<char>,
    ) -> (r: Option<()>)
        requires
            !cmd_crashes(self@, values(old(stack)@), old(input)@),
        ensures
            ({
                let (s, i, o, ok) = cmd_effect(self@, values(old(stack)@), old(input)@);
                &&& values(final(stack)@) == s
                &&& final(input)@ == i
                &&& final(output)@ == old(output)@ + o
                &&& (r is Some <==> ok)
            }),
    {
        let ghost s0 = values(stack@);
        let ghost out0 = output@;
        let n = stack.len();
        let zero = Integer::from_i64(0);
        let one = Integer::from_i64(1);
        match self {
            CMD::Nop => {
                assert(output@ =~= out0 + Seq::<char>::empty());
                Some(())
            },
            CMD::Push(v) => {
                stack.push(v);
                assert(values(stack@) =~= s0.push(v@));
                assert(output@ =~= out0 + Seq::<char>::empty());
                Some(())
            },
            CMD::Pop => {
                assert(output@ =~= out0 + Seq::<char>::empty());
                if n < 1 {
                    return None;
                }
                stack.pop();
                assert(values(stack@) =~= s0.drop_last());
                Some(())
            },
            CMD::Add | CMD::Sub | CMD::Mul | CMD::Greater => {
                assert(output@ =~= out0 + Seq::<char>::empty());
                if n < 2 {
                    return None;
                }
                let a = stack.pop().unwrap();
                let b = stack.pop().unwrap();
                let r = match self {
                    CMD::Add => b.add(&a),
                    CMD::Sub => b.sub(&a),
                    CMD::Mul => b.mul(&a),
                    _ => if a.less_than(&b) {
                        one
                    } else {
                        zero
                    },
                };
                stack.push(r);
                assert(values(stack@) =~= binary_result(s0, r@));
                Some(())
            },
            CMD::Div => {
                assert(output@ =~= out0 + Seq::<char>::empty());
                if n < 2 {
                    return None;
                }
                let a = stack.pop().unwrap();
                let b = stack.pop().unwrap();
                assert(values(stack@) =~= s0.subrange(0, n - 2));
                if b.equals(&zero) {
                    return None;
                }
                let r = b.div_trunc(&a);
                stack.push(r);
                assert(values(stack@) =~= binary_result(s0, r@));
                Some(())
            },
            CMD::Mod => {
                assert(output@ =~= out0 + Seq::<char>::empty());
                if n < 2 {
                    return None;
                }
                let a = stack.pop().unwrap();
                let b = stack.pop().unwrap();
                assert(values(stack@) =~= s0.subrange(0, n - 2));
                if a.equals(&zero) {
                    return None;
                }
                let r = b.rem_euclid(&a);
                stack.push(r);
                assert(values(stack@) =~= binary_result(s0, r@));
                Some(())
            },
            CMD::Not => {
                assert(output@ =~= out0 + Seq::<char>::empty());
                if n < 1 {
                    return None;
                }
                let a = stack.pop().unwrap();
                let r = if a.equals(&zero) {
                    one
                } else {
                    zero
                };
                stack.push(r);
                assert(values(stack@) =~= s0.drop_last().push(r@));
                Some(())
            },
            CMD::Dup => {
                assert(output@ =~= out0 + Seq::<char>::empty());
                match stack.pop() {
                    None => None,
                    Some(a) => {
                        let c = a.copy();
                        stack.push(c);
                        stack.push(a);
                        assert(values(stack@) =~= s0.push(s0[n - 1]));
                        Some(())
                    },
                }
            },
            CMD::Roll => {
                assert(output@ =~= out0 + Seq::<char>::empty());
                if n < 2 || stack[n - 2].less_than(&zero) {
                    return None;
                }
                let a = stack.pop().unwrap();
                let b = stack.pop().unwrap();
                let ghost rest = s0.subrange(0, n - 2);
                assert(values(stack@) =~= rest);
                let k = a.rem_euclid(&b);
                let bu = b.to_usize().unwrap();
                if !k.equals(&zero) {
                    let ku = k.to_usize().unwrap();
                    let s = stack.len();
                    let mut segment = stack.split_off(s - bu);
                    let mut moved = segment.split_off(bu - ku);
                    stack.append(&mut moved);
                    stack.append(&mut segment);
                    proof {
                        let seg = rest.subrange(rest.len() - b@, rest.len() as int);
                        assert(values(stack@) =~= rest.subrange(0, rest.len() - b@) + rotate_right(
                            seg,
                            k@,
                        ));
                    }
                }
                Some(())
            },
            CMD::InN => {
                assert(output@ =~= out0 + Seq::<char>::empty());
                match read_number(input) {
                    None => {
                        stack.push(Integer::from_i64(-1));
                    },
                    Some(v) => {
                        stack.push(v);
                    },
                }
                assert(values(stack@) =~= s0.push(values(stack@).last()));
                Some(())
            },
            CMD::InC => {
                assert(output@ =~= out0 + Seq::<char>::empty());
                match input.next() {
                    None => {
                        stack.push(Integer::from_i64(-1));
                    },
                    Some(c) => {
                        stack.push(Integer::from_i64(c as i64));
                    },
                }
                assert(values(stack@) =~= s0.push(values(stack@).last()));
                Some(())
            },
            CMD::OutN => {
                if n < 1 {
                    assert(output@ =~= out0 + Seq::<char>::empty());
                    return None;
                }
                let a = stack.pop().unwrap();
                assert(values(stack@) =~= s0.drop_last());
                let text = a.to_decimal_chars();
                append_chars(output, &text);
                Some(())
            },
            CMD::OutC => {
                if n < 1 {
                    assert(output@ =~= out0 + Seq::<char>::empty());
                    return None;
                }
                let a = stack.pop().unwrap();
                assert(values(stack@) =~= s0.drop_last());
                let code = a.to_u32().unwrap();
                let c = char_from_code(code).unwrap();
                output.push(c);
                assert(output@ =~= out0 + seq![char_of_code(a@)]);
                Some(())
            },
            CMD::Pointer => None,
            CMD::Switch => None,
        }
    }

    /// Executes the command, discarding whether it was accepted.
    pub fn interpret(self, stack: &mut Vec<Integer>, input: &mut ByteInput, output: &mut Vec<char>)
        requires
            !cmd_crashes(self@, values(old(stack)@), old(input)@),
        ensures
            ({
                let (s, i, o, ok) = cmd_effect(self@, values(old(stack)@), old(input)@);
                &&& values(final(stack)@) == s
                &&& final(input)@ == i
                &&& final(output)@ == old(output)@ + o
            }),
    {
        self.interpret_result(stack, input, output);
    }
}

} // verus!
