use vstd::prelude::*;

use crate::chars::{
    digit_to_u32, is_ascii_alphabetic, is_ascii_digit, is_digit, is_letter, is_separator,
    is_unicode_whitespace, digit_value,
};
use crate::error::{Error, ErrorModel};
use crate::text::{chars_of, string_from_chars};

verus! {

/// The mathematical value of a [`Token`].
pub enum TokenModel {
    Number(u32),
    Unit(Seq<char>),
}

/// One lexical element of a duration string.
#[derive(Debug, PartialEq, Eq)]
pub enum Token {
    /// A run of ASCII digits, read as a decimal number.
    Number(u32),
    /// A run of ASCII letters.
    Unit(String),
}

impl View for Token {
    type V = TokenModel;

    open spec fn view(&self) -> TokenModel {
        match self {
            Token::Number(n) => TokenModel::Number(*n),
            Token::Unit(s) => TokenModel::Unit(s@),
        }
    }
}

/// The values of a sequence of tokens.
pub open spec fn tokens_view(v: Seq<Token>) -> Seq<TokenModel> {
    v.map_values(|t: Token| t@)
}

/// The value of the result of a scan.
pub open spec fn scan_result_view(r: Result<Vec<Token>, Error>) -> Result<
    Seq<TokenModel>,
    ErrorModel,
> {
    match r {
        Ok(v) => Ok(tokens_view(v@)),
        Err(e) => Err(e@),
    }
}

/// `ts` followed by the tokens of `r`, or the error of `r`.
pub open spec fn prepend_tokens(ts: Seq<TokenModel>, r: Result<Seq<TokenModel>, ErrorModel>) -> Result<
    Seq<TokenModel>,
    ErrorModel,
> {
    match r {
        Ok(rest) => Ok(ts + rest),
        Err(e) => Err(e),
    }
}

/// The index just past the run of ASCII digits that starts at `i`.
pub open spec fn digit_run_end(s: Seq<char>, i: int) -> int
    decreases s.len() - i,
{
    if 0 <= i < s.len() && is_digit(s[i]) {
        digit_run_end(s, i + 1)
    } else {
        i
    }
}

/// The index just past the run of ASCII letters that starts at `i`.
pub open spec fn letter_run_end(s: Seq<char>, i: int) -> int
    decreases s.len() - i,
{
    if 0 <= i < s.len() && is_letter(s[i]) {
        letter_run_end(s, i + 1)
    } else {
        i
    }
}

/// The number that a run of decimal digits denotes.
pub open spec fn decimal_value(t: Seq<char>) -> nat
    decreases t.len(),
{
    if t.len() == 0 {
        0
    } else {
        decimal_value(t.drop_last()) * 10 + digit_value(t.last())
    }
}

/// A run of digits ends after its start, within the input, on a non-digit.
pub proof fn lemma_digit_run_end(s: Seq<char>, i: int)
    requires
        0 <= i <= s.len(),
    ensures
        i <= digit_run_end(s, i) <= s.len(),
        forall|k: int| i <= k < digit_run_end(s, i) ==> is_digit(#[trigger] s[k]),
        digit_run_end(s, i) < s.len() ==> !is_digit(s[digit_run_end(s, i)]),
        i < s.len() && is_digit(s[i]) ==> i < digit_run_end(s, i),
    decreases s.len() - i,
{
    if i < s.len() && is_digit(s[i]) {
        lemma_digit_run_end(s, i + 1);
    }
}

/// A run of letters ends after its start, within the input, on a non-letter.
pub proof fn lemma_letter_run_end(s: Seq<char>, i: int)
    requires
        0 <= i <= s.len(),
    ensures
        i <= letter_run_end(s, i) <= s.len(),
        forall|k: int| i <= k < letter_run_end(s, i) ==> is_letter(#[trigger] s[k]),
        letter_run_end(s, i) < s.len() ==> !is_letter(s[letter_run_end(s, i)]),
        i < s.len() && is_letter(s[i]) ==> i < letter_run_end(s, i),
    decreases s.len() - i,
{
    if i < s.len() && is_letter(s[i]) {
        lemma_letter_run_end(s, i + 1);
    }
}

/// The tokens of `s` from index `i` on, or the first error met there.
///
/// Whitespace and commas are skipped; a maximal run of digits is a number,
/// which must not exceed `u32::MAX`; a maximal run of ASCII letters is a
/// unit; any other character is an error.
pub open spec fn scan_from(s: Seq<char>, i: int) -> Result<Seq<TokenModel>, ErrorModel>
    decreases s.len() - i,
{
    if i < 0 || i >= s.len() {
        Ok(Seq::empty())
    } else if is_separator(s[i]) {
        scan_from(s, i + 1)
    } else if is_digit(s[i]) {
        let j = digit_run_end(s, i);
        let text = s.subrange(i, j);
        if decimal_value(text) > u32::MAX {
            Err(ErrorModel::Overflow(text))
        } else {
            proof {
                lemma_digit_run_end(s, i);
            }
            prepend_tokens(seq![TokenModel::Number(decimal_value(text) as u32)], scan_from(s, j))
        }
    } else if is_letter(s[i]) {
        let j = letter_run_end(s, i);
        proof {
            lemma_letter_run_end(s, i);
        }
        prepend_tokens(seq![TokenModel::Unit(s.subrange(i, j))], scan_from(s, j))
    } else {
        Err(ErrorModel::UnexpectedChar(s[i]))
    }
}

/// The tokens of a whole input, or the first error met in it.
pub open spec fn scan(s: Seq<char>) -> Result<Seq<TokenModel>, ErrorModel> {
    scan_from(s, 0)
}

/// Splits a duration string into numbers and units.
pub struct Scanner {
    chars: Vec<char>,
    pos: usize,
}

impl Scanner {
    #[verifier::type_invariant]
    spec fn position_within_source(self) -> bool {
        self.pos <= self.chars.len()
    }

    /// The characters being scanned.
    pub closed spec fn source(self) -> Seq<char> {
        self.chars@
    }

    /// The index of the next character to scan.
    pub closed spec fn position(self) -> int {
        self.pos as int
    }

    /// A scanner at the start of `source`.
    pub fn new(source: &str) -> (s: Scanner)
        ensures
            s.source() == source@,
            s.position() == 0,
    {
        Scanner { chars: chars_of(source), pos: 0 }
    }

    /// Scans the rest of the source into tokens.
    pub fn scan_tokens(self) -> (r: Result<Vec<Token>, Error>)
        ensures
            scan_result_view(r) == scan_from(self.source(), self.position()),
    {
        let mut this = self;
        proof {
            use_type_invariant(&this);
        }
        let ghost s = this.chars@;
        let ghost p0 = this.pos as int;
        let mut tokens: Vec<Token> = Vec::new();
        assert(tokens_view(tokens@) =~= Seq::<TokenModel>::empty());
        assert(prepend_tokens(tokens_view(tokens@), scan_from(s, p0)) == scan_from(s, p0)) by {
            match scan_from(s, p0) {
                Ok(rest) => {
                    assert(Seq::<TokenModel>::empty() + rest =~= rest);
                },
                Err(_) => {},
            }
        }
        while this.pos < this.chars.len()
            invariant
                s == self.source(),
                p0 == self.position(),
                this.chars@ == s,
                this.pos <= s.len(),
                scan_from(s, p0) == prepend_tokens(
                    tokens_view(tokens@),
                    scan_from(s, this.pos as int),
                ),
            decreases s.len() - this.pos,
        {
            proof {
                use_type_invariant(&this);
            }
            let c = this.chars[this.pos];
            let ghost p = this.pos as int;
            let ghost before = tokens_view(tokens@);
            if this.should_skip(c) {
                this.pos = this.pos + 1;
            } else if is_ascii_digit(c) {
                let start = this.pos;
                proof {
                    lemma_digit_run_end(s, p);
                }
                match this.scan_number(start) {
                    Ok(n) => {
                        tokens.push(Token::Number(n));
                        proof {
                            let t = seq![TokenModel::Number(n)];
                            assert(tokens_view(tokens@) =~= before + t);
                            match scan_from(s, this.pos as int) {
                                Ok(rest) => {
                                    assert(before + (t + rest) =~= (before + t) + rest);
                                },
                                Err(_) => {},
                            }
                        }
                    },
                    Err(e) => {
                        assert(scan_from(s, p) == Err::<Seq<TokenModel>, ErrorModel>(e@));
                        assert(scan_from(s, p0) == Err::<Seq<TokenModel>, ErrorModel>(e@));
                        return Err(e);
                    },
                }
            } else if is_ascii_alphabetic(c) {
                let start = this.pos;
                proof {
                    lemma_letter_run_end(s, p);
                }
                let u = this.scan_unit(start);
                tokens.push(Token::Unit(u));
                proof {
                    let t = seq![TokenModel::Unit(u@)];
                    assert(tokens_view(tokens@) =~= before + t);
                    match scan_from(s, this.pos as int) {
                        Ok(rest) => {
                            assert(before + (t + rest) =~= (before + t) + rest);
                        },
                        Err(_) => {},
                    }
                }
            } else {
                assert(scan_from(s, p) == Err::<Seq<TokenModel>, ErrorModel>(
                    ErrorModel::UnexpectedChar(c),
                ));
                assert(scan_from(s, p0) == Err::<Seq<TokenModel>, ErrorModel>(
                    ErrorModel::UnexpectedChar(c),
                ));
                return Err(Error::UnexpectedChar(c));
            }
        }
        proof {
            assert(tokens_view(tokens@) + Seq::<TokenModel>::empty() =~= tokens_view(tokens@));
        }
        Ok(tokens)
    }

    /// Whether `c` separates tokens and is otherwise ignored.
    fn should_skip(&self, c: char) -> (b: bool)
        ensures
            b == is_separator(c),
    {
        is_unicode_whitespace(c) || c == ','
    }

    /// Scans the run of digits that starts at `start`, the current position,
    /// and reads it as a decimal number.
    fn scan_number(&mut self, start: usize) -> (r: Result<u32, Error>)
        requires
            old(self).position() == start,
            start < old(self).source().len(),
            is_digit(old(self).source()[start as int]),
        ensures
            final(self).source() == old(self).source(),
            final(self).position() == digit_run_end(old(self).source(), start as int),
            ({
                let text = old(self).source().subrange(
                    start as int,
                    digit_run_end(old(self).source(), start as int),
                );
                match r {
                    Ok(n) => decimal_value(text) <= u32::MAX && n == decimal_value(text),
                    Err(e) => decimal_value(text) > u32::MAX && e@ == ErrorModel::Overflow(text),
                }
            }),
    {
        proof {
            use_type_invariant(&*self);
        }
        let ghost s = self.chars@;
        let mut value: u32 = 0;
        let mut overflowed = false;
        assert(s.subrange(start as int, start as int) =~= Seq::<char>::empty());
        while self.pos < self.chars.len() && is_ascii_digit(self.chars[self.pos])
            invariant
                self.chars@ == s,
                start <= self.pos <= s.len(),
                digit_run_end(s, start as int) == digit_run_end(s, self.pos as int),
                !overflowed ==> value == decimal_value(s.subrange(start as int, self.pos as int)),
                overflowed ==> decimal_value(s.subrange(start as int, self.pos as int))
                    > u32::MAX,
            decreases s.len() - self.pos,
        {
            let c = self.chars[self.pos];
            let d = digit_to_u32(c);
            let ghost p = self.pos as int;
            proof {
                let next = s.subrange(start as int, p + 1);
                assert(next.drop_last() =~= s.subrange(start as int, p));
                assert(next.last() == c);
            }
            if !overflowed {
                match value.checked_mul(10) {
                    Some(v10) => match v10.checked_add(d) {
                        Some(v) => {
                            value = v;
                        },
                        None => {
                            overflowed = true;
                        },
                    },
                    None => {
                        overflowed = true;
                    },
                }
            }
            self.pos = self.pos + 1;
        }
        if overflowed {
            Err(Error::Overflow(string_from_chars(&self.chars, start, self.pos)))
        } else {
            Ok(value)
        }
    }

    /// Scans the run of ASCII letters that starts at `start`, the current
    /// position.
    fn scan_unit(&mut self, start: usize) -> (u: String)
        requires
            old(self).position() == start,
            start < old(self).source().len(),
            is_letter(old(self).source()[start as int]),
        ensures
            final(self).source() == old(self).source(),
            final(self).position() == letter_run_end(old(self).source(), start as int),
            u@ == old(self).source().subrange(
                start as int,
                letter_run_end(old(self).source(), start as int),
            ),
    {
        proof {
            use_type_invariant(&*self);
        }
        let ghost s = self.chars@;
        while self.pos < self.chars.len() && is_ascii_alphabetic(self.chars[self.pos])
            invariant
                self.chars@ == s,
                start <= self.pos <= s.len(),
                letter_run_end(s, start as int) == letter_run_end(s, self.pos as int),
            decreases s.len() - self.pos,
        {
            self.pos = self.pos + 1;
        }
        string_from_chars(&self.chars, start, self.pos)
    }
}

} // verus!
