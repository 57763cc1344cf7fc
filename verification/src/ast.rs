//! The surface abstract syntax handed to the consumer by an external parser,
//! and the concrete primitive values that constant folding produces.

use crate::path::Path;
use vstd::prelude::*;

verus! {

/// Access level of a declaration.
#[derive(Debug, Clone, Copy, PartialEq, Eq, Structural)]
pub enum Accessor {
    Public,
    Package,
    Private,
}

/// A literal or name occurring in the surface syntax. Numeric literals are
/// carried as signed 128-bit values, wide enough for every fixed-width
/// primitive type the folder can produce; per-type handlers reject values
/// outside their own width.
#[derive(Debug, PartialEq, Eq)]
pub enum Value {
    Name(String),
    Literal(String),
    Bytes(Vec<u8>),
    Numeric(i128),
}

/// Concrete primitive values: the output of constant folding.
#[derive(Debug, PartialEq, Eq)]
pub enum Raw {
    Void,
    I8(i8),
    I16(i16),
    I32(i32),
    I64(i64),
    U8(u8),
    U16(u16),
    U32(u32),
    U64(u64),
    Pointer(usize),
    Complex(Vec<Raw>),
    Array(Vec<Raw>),
}

/// Declared shapes of data, as a type annotation denotes them.
#[derive(Debug, PartialEq, Eq)]
pub enum Type {
    I8,
    I16,
    I32,
    I64,
    U8,
    U16,
    U32,
    U64,
    Array(Box<Type>, usize),
    Complex(Vec<Type>),
    Reference(Path),
}

/// A surface expression, as the external parser produces it. `Primitive` and
/// `Reference` are not produced by the parser: the folder introduces them for
/// already-evaluated subterms.
#[derive(Debug, PartialEq, Eq)]
pub enum Expression {
    Argument(Value),
    Primitive(Raw),
    Reference(Path),
    Tuple(Vec<Expression>),
    Array(Vec<Expression>),
    FunctionShape(Vec<(Expression, Option<Expression>)>, Box<Option<Expression>>),
    Generic(Vec<Expression>),
    Call(Box<Expression>, Vec<Expression>),
    Member(Box<Expression>, Box<Expression>),
    Cast(Box<Expression>, Box<Expression>),
    Pos(Box<Expression>),
    Neg(Box<Expression>),
    Not(Box<Expression>),
    Add(Box<Expression>, Box<Expression>),
    Sub(Box<Expression>, Box<Expression>),
    Mul(Box<Expression>, Box<Expression>),
    Div(Box<Expression>, Box<Expression>),
    Mod(Box<Expression>, Box<Expression>),
    Exp(Box<Expression>, Box<Expression>),
    Eq(Box<Expression>, Box<Expression>),
    Neq(Box<Expression>, Box<Expression>),
    G(Box<Expression>, Box<Expression>),
    L(Box<Expression>, Box<Expression>),
    Ge(Box<Expression>, Box<Expression>),
    Le(Box<Expression>, Box<Expression>),
    And(Box<Expression>, Box<Expression>),
    Or(Box<Expression>, Box<Expression>),
    Xor(Box<Expression>, Box<Expression>),
    ShL(Box<Expression>, Box<Expression>),
    ShR(Box<Expression>, Box<Expression>),
}

/// A surface sentence: a declaration or statement, as the external parser
/// produces it. Declarations carry an access level, a name expression, an
/// optional type annotation and an optional body.
#[derive(Debug, PartialEq, Eq)]
pub enum Sentence {
    Define(Accessor, Expression, Box<Option<Expression>>, Box<Option<Sentence>>),
    Library(Accessor, Expression, Box<Option<Expression>>, Box<Option<Sentence>>),
    Constant(Accessor, Expression, Box<Option<Expression>>, Box<Option<Sentence>>),
    Variable(Accessor, Expression, Box<Option<Expression>>, Box<Option<Sentence>>),
    Layer(Accessor, Expression, Box<Option<Expression>>, Box<Option<Sentence>>),
    Struct(Accessor, Expression, Box<Option<Expression>>, Box<Option<Sentence>>),
    Enum(Accessor, Expression, Box<Option<Expression>>, Box<Option<Sentence>>),
    Function(Accessor, Expression, Box<Option<Expression>>, Box<Option<Sentence>>),
    Macro(Accessor, Option<Expression>, Box<Option<Sentence>>),
    Comment(String),
    Assign(Expression, Expression),
    Mean(Expression),
    Lambda(Box<Sentence>, Box<Sentence>),
    If(Expression, Box<Sentence>, Box<Option<Sentence>>),
    Return(Expression),
    After(Expression),
    Block(Vec<Sentence>),
}

/// A character may appear in a line comment: anything but a line break.
pub fn is_not_space(chr: char) -> (r: bool)
    ensures
        r == (chr != '\r' && chr != '\n'),
{
    !(chr == '\r' || chr == '\n')
}

/// The hexadecimal digit for a value below sixteen.
pub open spec fn hex_digit(n: int) -> char {
    if n == 0 {
        '0'
    } else if n == 1 {
        '1'
    } else if n == 2 {
        '2'
    } else if n == 3 {
        '3'
    } else if n == 4 {
        '4'
    } else if n == 5 {
        '5'
    } else if n == 6 {
        '6'
    } else if n == 7 {
        '7'
    } else if n == 8 {
        '8'
    } else if n == 9 {
        '9'
    } else if n == 10 {
        'A'
    } else if n == 11 {
        'B'
    } else if n == 12 {
        'C'
    } else if n == 13 {
        'D'
    } else if n == 14 {
        'E'
    } else {
        'F'
    }
}

/// One byte, rendered as `0x` and two upper-case hexadecimal digits.
pub open spec fn hex_of_byte(b: u8) -> Seq<char> {
    seq!['0', 'x', hex_digit(b as int / 16), hex_digit(b as int % 16)]
}

/// A byte sequence rendered byte by byte with a separator between entries.
pub open spec fn hex_format_spec(bs: Seq<u8>, sep: Seq<char>) -> Seq<char>
    decreases bs.len(),
{
    if bs.len() == 0 {
        Seq::empty()
    } else if bs.len() == 1 {
        hex_of_byte(bs[0])
    } else {
        hex_of_byte(bs[0]) + sep + hex_format_spec(bs.drop_first(), sep)
    }
}

/// The digit character of a value below sixteen.
fn hex_digit_str(n: u8) -> (r: &'static str)
    requires
        n < 16,
    ensures
        r@ == seq![hex_digit(n as int)],
{
    proof {
        reveal_strlit("0");
        reveal_strlit("1");
        reveal_strlit("2");
        reveal_strlit("3");
        reveal_strlit("4");
        reveal_strlit("5");
        reveal_strlit("6");
        reveal_strlit("7");
        reveal_strlit("8");
        reveal_strlit("9");
        reveal_strlit("A");
        reveal_strlit("B");
        reveal_strlit("C");
        reveal_strlit("D");
        reveal_strlit("E");
        reveal_strlit("F");
    }
    match n {
        0 => "0",
        1 => "1",
        2 => "2",
        3 => "3",
        4 => "4",
        5 => "5",
        6 => "6",
        7 => "7",
        8 => "8",
        9 => "9",
        10 => "A",
        11 => "B",
        12 => "C",
        13 => "D",
        14 => "E",
        _ => "F",
    }
}

/// Render bytes as `0x`-prefixed upper-case hexadecimal, separated by `sep`.
#[verifier::loop_isolation(false)]
pub fn hex_format(raw: &[u8], sep: &str) -> (r: String)
    ensures
        r@ == hex_format_spec(raw@, sep@),
{
    let mut out = String::new();
    let n = raw.len();
    let mut k: usize = 0;
    proof {
        reveal_strlit("0x");
    }
    while k < n
        invariant
            0 <= k <= n,
            n == raw@.len(),
            k == 0 ==> out@ == Seq::<char>::empty(),
            0 < k < n ==> out@ + sep@ + hex_format_spec(raw@.subrange(k as int, n as int), sep@)
                == hex_format_spec(raw@, sep@),
            k == n && n > 0 ==> out@ == hex_format_spec(raw@, sep@),
        decreases n - k,
    {
        let ghost out0 = out@;
        let ghost tail = raw@.subrange(k as int, n as int);
        if k > 0 {
            out.append(sep);
        }
        let b = raw[k];
        out.append("0x");
        out.append(hex_digit_str(b / 16));
        out.append(hex_digit_str(b % 16));
        proof {
            assert(tail[0] == b);
            assert(tail.drop_first() =~= raw@.subrange(k as int + 1, n as int));
            if k == 0 {
                assert(out@ =~= hex_of_byte(b));
                if n == 1 {
                    assert(tail =~= raw@);
                    assert(out@ =~= hex_format_spec(raw@, sep@));
                } else {
                    assert(tail =~= raw@);
                    assert(hex_format_spec(raw@, sep@) =~= hex_of_byte(b) + sep@
                        + hex_format_spec(raw@.subrange(1, n as int), sep@));
                    assert(out@ + sep@ + hex_format_spec(raw@.subrange(1, n as int), sep@)
                        =~= hex_format_spec(raw@, sep@));
                }
            } else {
                assert(out@ =~= out0 + sep@ + hex_of_byte(b));
                if k + 1 == n {
                    assert(hex_format_spec(tail, sep@) == hex_of_byte(b));
                    assert(out@ =~= out0 + sep@ + hex_format_spec(tail, sep@));
                } else {
                    assert(hex_format_spec(tail, sep@) =~= hex_of_byte(b) + sep@
                        + hex_format_spec(raw@.subrange(k as int + 1, n as int), sep@));
                    assert(out@ + sep@ + hex_format_spec(raw@.subrange(k as int + 1, n as int), sep@)
                        =~= out0 + sep@ + hex_format_spec(tail, sep@));
                }
            }
        }
        k = k + 1;
    }
    out
}

/// Decimal digits of a non-negative number, most significant first.
pub open spec fn dec_digits(n: int) -> Seq<char>
    decreases n,
{
    if n < 10 {
        seq![hex_digit(if n < 0 { 0 } else { n })]
    } else {
        dec_digits(n / 10).push(hex_digit(n % 10))
    }
}

/// Render a number in decimal.
pub fn dec_format(n: usize) -> (r: String)
    ensures
        r@ == dec_digits(n as int),
{
    let mut digits: Vec<u8> = Vec::new();
    let mut m: usize = n;
    loop
        invariant_except_break
            digits@.len() > 0 ==> m > 0 && dec_digits(n as int) == dec_digits(m as int)
                + digit_chars(digits@),
            digits@.len() == 0 ==> m == n,
            forall|i: int| 0 <= i < digits@.len() ==> #[trigger] digits@[i] < 10,
        ensures
            digits@.len() > 0,
            dec_digits(n as int) == digit_chars(digits@),
            forall|i: int| 0 <= i < digits@.len() ==> #[trigger] digits@[i] < 10,
        decreases m,
    {
        let d = (m % 10) as u8;
        let ghost digits0 = digits@;
        digits.push(d);
        proof {
            assert(digits@.last() == d);
            assert(digits@.drop_last() =~= digits0);
            assert(digit_chars(digits@) =~= seq![hex_digit(d as int)] + digit_chars(digits0));
            if m < 10 {
                assert(dec_digits(m as int) == seq![hex_digit(d as int)]);
            } else {
                assert(dec_digits(m as int) == dec_digits(m as int / 10).push(
                    hex_digit(m as int % 10),
                ));
                assert(dec_digits(m as int) + digit_chars(digits0) =~= dec_digits(m as int / 10)
                    + digit_chars(digits@));
            }
        }
        m = m / 10;
        if m == 0 {
            break ;
        }
    }
    let mut out = String::new();
    let mut k: usize = digits.len();
    while k > 0
        invariant
            0 <= k <= digits@.len(),
            forall|i: int| 0 <= i < digits@.len() ==> #[trigger] digits@[i] < 10,
            out@ == digit_chars(digits@.subrange(k as int, digits@.len() as int)),
        decreases k,
    {
        k = k - 1;
        let ghost before = digits@.subrange(k as int + 1, digits@.len() as int);
        out.append(hex_digit_str(digits[k]));
        proof {
            let ghost tail = digits@.subrange(k as int, digits@.len() as int);
            assert(tail.drop_first() =~= before);
            assert(tail.first() == digits@[k as int]);
            lemma_digit_chars_front(tail);
            assert(out@ =~= digit_chars(tail));
        }
    }
    proof {
        assert(digits@.subrange(0, digits@.len() as int) =~= digits@);
    }
    out
}

/// The characters of a reversed digit list: last digit collected first.
pub open spec fn digit_chars(ds: Seq<u8>) -> Seq<char>
    decreases ds.len(),
{
    if ds.len() == 0 {
        Seq::empty()
    } else {
        seq![hex_digit(ds.last() as int)] + digit_chars(ds.drop_last())
    }
}

/// The reversed digit list can be peeled from the front as well: the first
/// collected digit gives the final character.
proof fn lemma_digit_chars_front(ds: Seq<u8>)
    requires
        ds.len() > 0,
    ensures
        digit_chars(ds) == digit_chars(ds.drop_first()) + seq![hex_digit(ds.first() as int)],
    decreases ds.len(),
{
    if ds.len() == 1 {
        assert(ds.drop_first() =~= Seq::<u8>::empty());
        assert(ds.drop_last() =~= Seq::<u8>::empty());
        assert(digit_chars(Seq::<u8>::empty()) =~= Seq::<char>::empty());
        assert(ds.first() == ds.last());
        assert(digit_chars(ds) =~= digit_chars(ds.drop_first()) + seq![
            hex_digit(ds.first() as int),
        ]);
    } else {
        lemma_digit_chars_front(ds.drop_last());
        assert(ds.drop_last().drop_first() =~= ds.drop_first().drop_last());
        assert(ds.drop_last().first() == ds.first());
        assert(ds.drop_first().last() == ds.last());
        assert(digit_chars(ds) =~= digit_chars(ds.drop_first()) + seq![
            hex_digit(ds.first() as int),
        ]);
    }
}

} // verus!
