use vstd::prelude::*;

use crate::chars::{lower_seq, to_ascii_lowercase};
use crate::duration::{max_nanos, Duration};
use crate::error::{Error, ErrorModel};
use crate::scanner::{scan, tokens_view, Scanner, Token, TokenModel};
use crate::units::{default_units, ParserUnits};

verus! {

/// The name under which a unit token is looked up: the token itself, or
/// the token lowercased where case is ignored.
pub open spec fn unit_key(token: Seq<char>, ignore_case: bool) -> Seq<char> {
    if ignore_case {
        lower_seq(token)
    } else {
        token
    }
}

/// The total of `toks`, read as number-unit pairs and added to `acc`, in
/// nanoseconds; or the first error met.
pub open spec fn eval_from(
    units: Map<Seq<char>, nat>,
    ignore_case: bool,
    toks: Seq<TokenModel>,
    acc: nat,
) -> Result<nat, ErrorModel>
    decreases toks.len(),
{
    if toks.len() == 0 {
        Ok(acc)
    } else {
        match toks[0] {
            TokenModel::Unit(_) => Err(ErrorModel::ExpectedNumber),
            TokenModel::Number(n) => {
                if toks.len() < 2 {
                    Err(ErrorModel::ExpectedUnit)
                } else {
                    match toks[1] {
                        TokenModel::Number(_) => Err(ErrorModel::ExpectedUnit),
                        TokenModel::Unit(u) => {
                            let key = unit_key(u, ignore_case);
                            if !units.contains_key(key) {
                                Err(ErrorModel::UnexpectedUnit(key))
                            } else if units[key] * (n as nat) > max_nanos() {
                                Err(ErrorModel::DurationOverflow)
                            } else if acc + units[key] * (n as nat) > max_nanos() {
                                Err(ErrorModel::DurationOverflow)
                            } else {
                                eval_from(units, ignore_case, toks.skip(2), acc + units[key] * (n as nat))
                            }
                        },
                    }
                }
            },
        }
    }
}

/// The total of a token sequence, in nanoseconds, or the first error met.
pub open spec fn evaluate(units: Map<Seq<char>, nat>, ignore_case: bool, toks: Seq<TokenModel>) -> Result<
    nat,
    ErrorModel,
> {
    eval_from(units, ignore_case, toks, 0)
}

/// What parsing `input` with these units and this case rule gives: the
/// length in nanoseconds, or the error.
pub open spec fn spec_parse(units: Map<Seq<char>, nat>, ignore_case: bool, input: Seq<char>) -> Result<
    nat,
    ErrorModel,
> {
    match scan(input) {
        Ok(toks) => evaluate(units, ignore_case, toks),
        Err(e) => Err(e),
    }
}

/// The value of a parse result.
pub open spec fn duration_result_view(r: Result<Duration, Error>) -> Result<nat, ErrorModel> {
    match r {
        Ok(d) => Ok(d@),
        Err(e) => Err(e@),
    }
}

/// `s` with ASCII uppercase letters mapped to lowercase.
fn lowercase(s: &String) -> (r: String)
    ensures
        r@ == lower_seq(s@),
{
    let mut out = String::new();
    for c in it: s.as_str().chars()
        invariant
            it.seq() == s@,
            out@ == lower_seq(it.seq().take(it.index() as int)),
    {
        proof {
            let i = it.index() as int;
            assert(lower_seq(it.seq().take(i + 1)) =~= lower_seq(it.seq().take(i)).push(
                crate::chars::lower(c),
            ));
        }
        out.push(to_ascii_lowercase(c));
    }
    out
}

/// How a [`Parser`] reads durations: whether it ignores the case of unit
/// names, and which units it knows.
pub struct ParserOptions {
    ignore_case: bool,
    units: ParserUnits,
}

impl ParserOptions {
    /// Whether unit tokens are lowercased before they are looked up.
    pub closed spec fn ignores_case(self) -> bool {
        self.ignore_case
    }

    /// The units known, by name, with their lengths in nanoseconds.
    pub closed spec fn units(self) -> Map<Seq<char>, nat> {
        self.units.units()
    }

    /// These options, with unit tokens lowercased before lookup exactly when
    /// `ignore` holds.
    pub fn ignore_case(self, ignore: bool) -> (o: ParserOptions)
        ensures
            o.ignores_case() == ignore,
            o.units() == self.units(),
    {
        let mut o = self;
        o.ignore_case = ignore;
        o
    }

    /// These options, with `units` as the known units.
    pub fn with_units(self, units: ParserUnits) -> (o: ParserOptions)
        ensures
            o.ignores_case() == self.ignores_case(),
            o.units() == units.units(),
    {
        let mut o = self;
        o.units = units;
        o
    }
}

impl Default for ParserOptions {
    /// Case-sensitive, with the built-in units.
    fn default() -> (o: ParserOptions)
        ensures
            !o.ignores_case(),
            o.units() == default_units(),
    {
        ParserOptions { ignore_case: false, units: ParserUnits::default() }
    }
}

/// A configurable parser for duration strings.
pub struct Parser {
    options: ParserOptions,
}

impl Parser {
    /// Whether unit tokens are lowercased before they are looked up.
    pub closed spec fn ignores_case(self) -> bool {
        self.options.ignores_case()
    }

    /// The units known, by name, with their lengths in nanoseconds.
    pub closed spec fn units(self) -> Map<Seq<char>, nat> {
        self.options.units()
    }

    /// A parser with the given options.
    pub fn new(options: ParserOptions) -> (p: Parser)
        ensures
            p.ignores_case() == options.ignores_case(),
            p.units() == options.units(),
    {
        Parser { options }
    }

    /// Parses a string into a `Duration`, ignoring whitespace and commas.
    ///
    /// The input is a sequence of numbers, each followed by a unit; the
    /// result is the sum of each number times the length of its unit.
    pub fn parse(&self, input: &str) -> (r: Result<Duration, Error>)
        ensures
            duration_result_view(r) == spec_parse(self.units(), self.ignores_case(), input@),
    {
        let tokens = Scanner::new(input).scan_tokens()?;
        self.parse_tokens(tokens)
    }

    /// Adds up number-unit pairs of tokens.
    fn parse_tokens(&self, tokens: Vec<Token>) -> (r: Result<Duration, Error>)
        ensures
            duration_result_view(r) == evaluate(
                self.units(),
                self.ignores_case(),
                tokens_view(tokens@),
            ),
    {
        let ghost units = self.units();
        let ghost ic = self.ignores_case();
        let ghost toks = tokens_view(tokens@);
        let mut dur = Duration::zero();
        let mut i: usize = 0;
        assert(toks.skip(0) =~= toks);
        while i < tokens.len()
            invariant
                units == self.units(),
                ic == self.ignores_case(),
                toks == tokens_view(tokens@),
                i <= tokens.len(),
                evaluate(units, ic, toks) == eval_from(units, ic, toks.skip(i as int), dur@),
            decreases tokens.len() - i,
        {
            let ghost rest = toks.skip(i as int);
            assert(rest[0] == tokens@[i as int]@);
            let num = match &tokens[i] {
                Token::Number(n) => *n,
                Token::Unit(_) => {
                    return Err(Error::ExpectedNumber);
                },
            };
            if i + 1 >= tokens.len() {
                return Err(Error::ExpectedUnit);
            }
            assert(rest[1] == tokens@[i + 1]@);
            let unit = match &tokens[i + 1] {
                Token::Unit(u) => u,
                Token::Number(_) => {
                    return Err(Error::ExpectedUnit);
                },
            };
            let unit_duration = self.get_unit_duration(unit)?;
            let component = match unit_duration.checked_mul(num) {
                Some(c) => c,
                None => {
                    return Err(Error::DurationOverflow);
                },
            };
            dur = match dur.checked_add(component) {
                Some(d) => d,
                None => {
                    return Err(Error::DurationOverflow);
                },
            };
            assert(rest.skip(2) =~= toks.skip(i + 2));
            i = i + 2;
        }
        assert(toks.skip(i as int) =~= Seq::<TokenModel>::empty());
        Ok(dur)
    }

    /// The length of the unit `unit`, looked up lowercased where case is
    /// ignored.
    fn get_unit_duration(&self, unit: &String) -> (r: Result<Duration, Error>)
        ensures
            ({
                let key = unit_key(unit@, self.ignores_case());
                match r {
                    Ok(d) => self.units().contains_key(key) && d@ == self.units()[key],
                    Err(e) => !self.units().contains_key(key) && e@
                        == ErrorModel::UnexpectedUnit(key),
                }
            }),
    {
        let key = if self.options.ignore_case {
            lowercase(unit)
        } else {
            unit.clone()
        };
        match self.options.units.get_duration(&key) {
            Some(d) => Ok(*d),
            None => Err(Error::UnexpectedUnit(key)),
        }
    }
}

impl Default for Parser {
    /// A case-sensitive parser with the built-in units.
    fn default() -> (p: Parser)
        ensures
            !p.ignores_case(),
            p.units() == default_units(),
    {
        Parser { options: ParserOptions::default() }
    }
}

/// Parses a duration string with a default [`Parser`]: case-sensitive,
/// with the built-in units, ignoring whitespace and commas.
pub fn parse(input: &str) -> (r: Result<Duration, Error>)
    ensures
        duration_result_view(r) == spec_parse(default_units(), false, input@),
{
    Parser::default().parse(input)
}

} // verus!
