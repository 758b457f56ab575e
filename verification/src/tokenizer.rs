//! The tokenizer: scans the input text left to right, skips spaces, folds a
//! leading minus into the following digit run when no number was just emitted,
//! and maps the remaining characters to operator and parenthesis tokens.

use vstd::prelude::*;

use crate::ast::{Token, TokenModel};

verus! {

/// A decimal digit.
pub open spec fn is_digit(c: char) -> bool {
    '0' <= c && c <= '9'
}

/// A character that a number token may contain: a digit or a decimal point.
pub open spec fn is_number_char(c: char) -> bool {
    is_digit(c) || c == '.'
}

/// The index just past the run of digit or point characters starting at `i`:
/// the first index at or after `i` that is out of range or holds some other
/// character.
pub open spec fn number_run_end(s: Seq<char>, i: int) -> int
    decreases s.len() - i,
{
    if i < 0 || i >= s.len() || !is_number_char(s[i]) {
        i
    } else {
        number_run_end(s, i + 1)
    }
}

/// The run starting at `i` ends within the text, every character in it is a
/// digit or a point, and the character right after it (if any) is neither.
pub proof fn lemma_number_run_end(s: Seq<char>, i: int)
    requires
        0 <= i <= s.len(),
    ensures
        i <= number_run_end(s, i) <= s.len(),
        forall|j: int| i <= j < number_run_end(s, i) ==> is_number_char(#[trigger] s[j]),
        number_run_end(s, i) < s.len() ==> !is_number_char(s[number_run_end(s, i)]),
    decreases s.len() - i,
{
    if i < s.len() && is_number_char(s[i]) {
        lemma_number_run_end(s, i + 1);
    }
}

/// The tokens of the text from index `i` on, where `after_number` records
/// whether the token emitted last was a number (the lookback that tells binary
/// subtraction from a unary sign). A character outside the accepted set ends
/// the sequence; the tokenizer's precondition rules such text out.
pub open spec fn spec_tokenize_at(s: Seq<char>, i: int, after_number: bool) -> Seq<TokenModel>
    decreases s.len() - i,
{
    if i < 0 || i >= s.len() {
        Seq::empty()
    } else {
        let c = s[i];
        if c == ' ' {
            spec_tokenize_at(s, i + 1, after_number)
        } else if c == '(' {
            seq![TokenModel::LeftParen] + spec_tokenize_at(s, i + 1, false)
        } else if c == ')' {
            seq![TokenModel::RightParen] + spec_tokenize_at(s, i + 1, false)
        } else if c == '+' {
            seq![TokenModel::OpAdd] + spec_tokenize_at(s, i + 1, false)
        } else if c == '*' {
            seq![TokenModel::OpMul] + spec_tokenize_at(s, i + 1, false)
        } else if c == '/' {
            seq![TokenModel::OpDiv] + spec_tokenize_at(s, i + 1, false)
        } else if c == '-' {
            if after_number {
                seq![TokenModel::OpSub] + spec_tokenize_at(s, i + 1, false)
            } else {
                let e = number_run_end(s, i + 1);
                proof {
                    lemma_number_run_end(s, i + 1);
                }
                seq![TokenModel::Number(s.subrange(i, e))] + spec_tokenize_at(s, e, true)
            }
        } else if is_digit(c) {
            let e = number_run_end(s, i);
            proof {
                lemma_number_run_end(s, i);
            }
            seq![TokenModel::Number(s.subrange(i, e))] + spec_tokenize_at(s, e, true)
        } else {
            Seq::empty()
        }
    }
}

/// The token sequence of a whole text, scanned from its start.
pub open spec fn spec_tokenize(s: Seq<char>) -> Seq<TokenModel> {
    spec_tokenize_at(s, 0, false)
}

/// The scan of the text from index `i` on reaches the end of the text without
/// meeting a character that cannot start or continue a token there: a `.` may
/// only continue a digit run, and characters outside the accepted set may not
/// appear at all. On any other text the tokenizer is a fatal lexical error.
pub open spec fn scans(s: Seq<char>, i: int, after_number: bool) -> bool
    decreases s.len() - i,
{
    if i < 0 {
        false
    } else if i >= s.len() {
        true
    } else {
        let c = s[i];
        if c == ' ' {
            scans(s, i + 1, after_number)
        } else if c == '(' || c == ')' || c == '+' || c == '*' || c == '/' {
            scans(s, i + 1, false)
        } else if c == '-' {
            if after_number {
                scans(s, i + 1, false)
            } else {
                let e = number_run_end(s, i + 1);
                proof {
                    lemma_number_run_end(s, i + 1);
                }
                scans(s, e, true)
            }
        } else if is_digit(c) {
            let e = number_run_end(s, i);
            proof {
                lemma_number_run_end(s, i);
            }
            scans(s, e, true)
        } else {
            false
        }
    }
}

/// A text that scans cleanly holds ASCII characters only, from index `i` on.
pub proof fn lemma_scans_ascii(s: Seq<char>, i: int, after_number: bool)
    requires
        scans(s, i, after_number),
    ensures
        forall|j: int| i <= j < s.len() ==> '\0' <= #[trigger] s[j] <= '\u{7f}',
    decreases s.len() - i,
{
    if 0 <= i < s.len() {
        let c = s[i];
        if c == ' ' {
            lemma_scans_ascii(s, i + 1, after_number);
        } else if c == '(' || c == ')' || c == '+' || c == '*' || c == '/' {
            lemma_scans_ascii(s, i + 1, false);
        } else if c == '-' && after_number {
            lemma_scans_ascii(s, i + 1, false);
        } else {
            let e = if c == '-' {
                number_run_end(s, i + 1)
            } else {
                number_run_end(s, i)
            };
            lemma_number_run_end(s, if c == '-' { i + 1 } else { i });
            lemma_scans_ascii(s, e, true);
        }
    }
}

/// Finds the end of the digit-or-point run starting at `start`.
fn scan_number_end(input: &str, start: usize) -> (e: usize)
    requires
        start <= input@.len(),
    ensures
        e as int == number_run_end(input@, start as int),
        start <= e <= input@.len(),
{
    let n: usize = input.unicode_len();
    let mut i: usize = start;
    loop
        invariant
            start <= i <= n,
            n == input@.len(),
            number_run_end(input@, start as int) == number_run_end(input@, i as int),
        ensures
            i as int == number_run_end(input@, start as int),
        decreases n - i,
    {
        if i >= n {
            break;
        }
        let c = input.get_char(i);
        if (c >= '0' && c <= '9') || c == '.' {
            i += 1;
        } else {
            break;
        }
    }
    i
}

/// Decides whether the text scans cleanly, so that a caller outside the
/// library can test `parse`'s precondition before trusting the input to it.
pub fn scans_ok(input: &str) -> (ok: bool)
    ensures
        ok == scans(input@, 0, false),
{
    let n: usize = input.unicode_len();
    let mut pos: usize = 0;
    let mut after_number: bool = false;
    loop
        invariant
            pos <= n,
            n == input@.len(),
            scans(input@, 0, false) == scans(input@, pos as int, after_number),
        ensures
            scans(input@, 0, false) == scans(input@, pos as int, after_number),
            pos >= n || !scans(input@, pos as int, after_number),
        decreases n - pos,
    {
        if pos >= n {
            break;
        }
        let c = input.get_char(pos);
        if c == ' ' {
            pos += 1;
        } else if c == '(' || c == ')' || c == '+' || c == '*' || c == '/' {
            pos += 1;
            after_number = false;
        } else if c == '-' {
            if after_number {
                pos += 1;
                after_number = false;
            } else {
                pos = scan_number_end(input, pos + 1);
                after_number = true;
            }
        } else if c >= '0' && c <= '9' {
            proof {
                assert(is_number_char(input@[pos as int]));
                lemma_number_run_end(input@, pos as int + 1);
                assert(number_run_end(input@, pos as int) == number_run_end(
                    input@,
                    pos as int + 1,
                ));
            }
            pos = scan_number_end(input, pos);
            after_number = true;
        } else {
            proof {
                assert(!scans(input@, pos as int, after_number));
            }
            break;
        }
    }
    pos >= n
}

/// Greedily consumes the digit-or-point run starting at `*pos` and returns its
/// text, leaving `*pos` on the run's last consumed position (one before the
/// first character that does not belong to the run), as the scanner's caller
/// advances by one after every token.
pub fn parse_num(input: &str, pos: &mut usize) -> (num: String)
    requires
        input.is_ascii(),
        *old(pos) <= input@.len(),
        number_run_end(input@, *old(pos) as int) >= 1,
    ensures
        num@ == input@.subrange(*old(pos) as int, number_run_end(input@, *old(pos) as int)),
        *final(pos) + 1 == number_run_end(input@, *old(pos) as int),
{
    let start: usize = *pos;
    let n: usize = input.unicode_len();
    loop
        invariant
            input.is_ascii(),
            start <= *pos <= n,
            n == input@.len(),
            number_run_end(input@, start as int) == number_run_end(input@, *pos as int),
        ensures
            *pos == number_run_end(input@, start as int),
        decreases n - *pos,
    {
        if *pos >= n {
            break;
        }
        let c = input.get_char(*pos);
        if (c >= '0' && c <= '9') || c == '.' {
            *pos += 1;
        } else {
            break;
        }
    }
    let num = input.substring_ascii(start, *pos).to_owned();
    *pos -= 1;
    num
}

/// Converts the input text to its token sequence: spaces are skipped, digits
/// and points are gathered greedily into number tokens, parentheses and the
/// operators map to their tokens, and `-` becomes binary subtraction exactly
/// when the token emitted last was a number, a unary sign otherwise.
pub fn parse(input: &str) -> (tokens: Vec<Token>)
    requires
        scans(input@, 0, false),
    ensures
        tokens.deep_view() == spec_tokenize(input@),
{
    proof {
        lemma_scans_ascii(input@, 0, false);
    }
    let mut tokens: Vec<Token> = Vec::new();
    let n: usize = input.unicode_len();
    let mut pos: usize = 0;
    let mut after_number: bool = false;
    loop
        invariant
            input.is_ascii(),
            scans(input@, pos as int, after_number),
            pos <= n,
            n == input@.len(),
            spec_tokenize(input@) == tokens.deep_view() + spec_tokenize_at(
                input@,
                pos as int,
                after_number,
            ),
        ensures
            spec_tokenize(input@) == tokens.deep_view(),
        decreases n - pos,
    {
        if pos >= n {
            assert(spec_tokenize(input@) =~= tokens.deep_view());
            break;
        }
        let ghost prefix = tokens.deep_view();
        let ghost p = pos as int;
        let c = input.get_char(pos);
        if c == ' ' {
            pos += 1;
            continue;
        }
        if c == '(' {
            tokens.push(Token::LeftParen);
            after_number = false;
        } else if c == ')' {
            tokens.push(Token::RightParen);
            after_number = false;
        } else if c == '+' {
            tokens.push(Token::OpAdd);
            after_number = false;
        } else if c == '*' {
            tokens.push(Token::OpMul);
            after_number = false;
        } else if c == '/' {
            tokens.push(Token::OpDiv);
            after_number = false;
        } else if c == '-' {
            if after_number {
                tokens.push(Token::OpSub);
                after_number = false;
            } else {
                pos += 1;
                proof {
                    lemma_number_run_end(input@, pos as int);
                }
                let tail = parse_num(input, &mut pos);
                let mut num = String::new();
                num.append("-");
                num.append(tail.as_str());
                proof {
                    reveal_strlit("-");
                    assert(num@ =~= input@.subrange(p, number_run_end(input@, p + 1)));
                }
                tokens.push(Token::Number(num));
                after_number = true;
            }
        } else {
            assert(is_digit(input@[p]));
            proof {
                lemma_number_run_end(input@, p);
            }
            let num = parse_num(input, &mut pos);
            tokens.push(Token::Number(num));
            after_number = true;
        }
        proof {
            assert(tokens.deep_view() =~= prefix + seq![tokens@.last().deep_view()]);
        }
        pos += 1;
    }
    tokens
}

} // verus!
