//! An arithmetic-expression engine: infix expressions with integer literals
//! in binary, octal, decimal, or hexadecimal notation, the four basic
//! operators, and parentheses are parsed into a token sequence, reordered
//! into postfix with the shunting-yard algorithm, and evaluated to a signed
//! 64-bit result.

pub mod interpreter;
pub mod parser;
