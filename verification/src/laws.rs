use vstd::prelude::*;

use crate::chars::{digit_value, is_digit, is_letter, is_separator, lower, lower_seq};
use crate::duration::max_nanos;
use crate::error::ErrorModel;
use crate::parser::{eval_from, evaluate, spec_parse, unit_key};
use crate::scanner::{
    decimal_value, digit_run_end, lemma_digit_run_end, lemma_letter_run_end, letter_run_end,
    prepend_tokens, scan, scan_from, TokenModel,
};
use crate::units::{default_units, valid_unit_name};

verus! {

// ---------------------------------------------------------------------
// Scanning
// ---------------------------------------------------------------------

proof fn lemma_prepend_assoc(
    x: Seq<TokenModel>,
    y: Seq<TokenModel>,
    r: Result<Seq<TokenModel>, ErrorModel>,
)
    ensures
        prepend_tokens(x, prepend_tokens(y, r)) == prepend_tokens(x + y, r),
{
    match r {
        Ok(rest) => {
            assert(x + (y + rest) =~= (x + y) + rest);
        },
        Err(_) => {},
    }
}

proof fn lemma_prepend_empty(r: Result<Seq<TokenModel>, ErrorModel>)
    ensures
        prepend_tokens(Seq::empty(), r) == r,
{
    match r {
        Ok(rest) => {
            assert(Seq::<TokenModel>::empty() + rest =~= rest);
        },
        Err(_) => {},
    }
}

/// Runs of digits and letters are found the same way after a prefix.
proof fn lemma_run_ends_shift(p: Seq<char>, b: Seq<char>, j: int)
    requires
        0 <= j <= b.len(),
    ensures
        digit_run_end(p + b, p.len() + j) == p.len() + digit_run_end(b, j),
        letter_run_end(p + b, p.len() + j) == p.len() + letter_run_end(b, j),
    decreases b.len() - j,
{
    if j < b.len() {
        assert((p + b)[p.len() + j] == b[j]);
        lemma_run_ends_shift(p, b, j + 1);
    }
}

/// Scanning after a prefix reads what scanning the rest alone reads.
proof fn lemma_scan_shift(p: Seq<char>, b: Seq<char>, j: int)
    requires
        0 <= j <= b.len(),
    ensures
        scan_from(p + b, p.len() + j) == scan_from(b, j),
    decreases b.len() - j,
{
    let s = p + b;
    let i = p.len() + j;
    if j < b.len() {
        assert(s[i] == b[j]);
        lemma_run_ends_shift(p, b, j);
        if is_separator(b[j]) {
            lemma_scan_shift(p, b, j + 1);
        } else if is_digit(b[j]) {
            lemma_digit_run_end(b, j);
            let e = digit_run_end(b, j);
            assert(s.subrange(i, p.len() + e) =~= b.subrange(j, e));
            lemma_scan_shift(p, b, e);
        } else if is_letter(b[j]) {
            lemma_letter_run_end(b, j);
            let e = letter_run_end(b, j);
            assert(s.subrange(i, p.len() + e) =~= b.subrange(j, e));
            lemma_scan_shift(p, b, e);
        }
    }
}

/// Within `a`, runs end as they do in `a` alone when a separator follows it.
proof fn lemma_run_ends_before_separator(a: Seq<char>, c: char, b: Seq<char>, i: int)
    requires
        is_separator(c),
        0 <= i <= a.len(),
    ensures
        digit_run_end(a + seq![c] + b, i) == digit_run_end(a, i),
        letter_run_end(a + seq![c] + b, i) == letter_run_end(a, i),
    decreases a.len() - i,
{
    let s = a + seq![c] + b;
    if i < a.len() {
        assert(s[i] == a[i]);
        lemma_run_ends_before_separator(a, c, b, i + 1);
    } else {
        assert(s[i] == c);
    }
}

/// Scanning `a`, a separator and `b` from inside `a` reads the tokens of `a`
/// from there, then those of `b`; or meets the error that `a` meets.
proof fn lemma_scan_prefix(a: Seq<char>, c: char, b: Seq<char>, i: int)
    requires
        is_separator(c),
        0 <= i <= a.len(),
    ensures
        scan_from(a + seq![c] + b, i) == (match scan_from(a, i) {
            Ok(t) => prepend_tokens(t, scan(b)),
            Err(e) => Err(e),
        }),
    decreases a.len() - i,
{
    let s = a + seq![c] + b;
    if i == a.len() {
        assert(s[i] == c);
        assert(s =~= (a + seq![c]) + b);
        lemma_scan_shift(a + seq![c], b, 0);
        lemma_prepend_empty(scan(b));
    } else {
        assert(s[i] == a[i]);
        lemma_run_ends_before_separator(a, c, b, i);
        if is_separator(a[i]) {
            lemma_scan_prefix(a, c, b, i + 1);
        } else if is_digit(a[i]) {
            lemma_digit_run_end(a, i);
            let e = digit_run_end(a, i);
            assert(s.subrange(i, e) =~= a.subrange(i, e));
            lemma_scan_prefix(a, c, b, e);
            let t = seq![TokenModel::Number(decimal_value(a.subrange(i, e)) as u32)];
            lemma_prepend_assoc(t, scan_from(a, e)->Ok_0, scan(b));
        } else if is_letter(a[i]) {
            lemma_letter_run_end(a, i);
            let e = letter_run_end(a, i);
            assert(s.subrange(i, e) =~= a.subrange(i, e));
            lemma_scan_prefix(a, c, b, e);
            let t = seq![TokenModel::Unit(a.subrange(i, e))];
            lemma_prepend_assoc(t, scan_from(a, e)->Ok_0, scan(b));
        }
    }
}

/// Input made only of separators holds no tokens.
proof fn lemma_scan_separators(s: Seq<char>, i: int)
    requires
        0 <= i <= s.len(),
        forall|k: int| 0 <= k < s.len() ==> is_separator(#[trigger] s[k]),
    ensures
        scan_from(s, i) == Ok::<Seq<TokenModel>, ErrorModel>(Seq::empty()),
    decreases s.len() - i,
{
    if i < s.len() {
        assert(is_separator(s[i]));
        lemma_scan_separators(s, i + 1);
    }
}

// ---------------------------------------------------------------------
// Adding up
// ---------------------------------------------------------------------

/// A successful total is at least what it started from, and stays within
/// the range of `Duration` when the start does.
proof fn lemma_eval_bounds(
    units: Map<Seq<char>, nat>,
    ic: bool,
    toks: Seq<TokenModel>,
    acc: nat,
)
    requires
        eval_from(units, ic, toks, acc) is Ok,
    ensures
        eval_from(units, ic, toks, acc)->Ok_0 >= acc,
        acc <= max_nanos() ==> eval_from(units, ic, toks, acc)->Ok_0 <= max_nanos(),
    decreases toks.len(),
{
    if toks.len() > 1 {
        if let TokenModel::Number(n) = toks[0] {
            if let TokenModel::Unit(u) = toks[1] {
                let key = unit_key(u, ic);
                lemma_eval_bounds(units, ic, toks.skip(2), acc + units[key] * (n as nat));
            }
        }
    }
}

/// Adding up two token sequences one after the other: the first total is
/// where the second starts.
proof fn lemma_eval_concat(
    units: Map<Seq<char>, nat>,
    ic: bool,
    ta: Seq<TokenModel>,
    tb: Seq<TokenModel>,
    acc: nat,
)
    requires
        eval_from(units, ic, ta, acc) is Ok,
    ensures
        eval_from(units, ic, ta + tb, acc) == eval_from(
            units,
            ic,
            tb,
            eval_from(units, ic, ta, acc)->Ok_0,
        ),
    decreases ta.len(),
{
    if ta.len() == 0 {
        assert(ta + tb =~= tb);
    } else if ta.len() > 1 {
        if let TokenModel::Number(n) = ta[0] {
            if let TokenModel::Unit(u) = ta[1] {
                assert((ta + tb)[0] == ta[0]);
                assert((ta + tb)[1] == ta[1]);
                assert((ta + tb).skip(2) =~= ta.skip(2) + tb);
                let key = unit_key(u, ic);
                lemma_eval_concat(units, ic, ta.skip(2), tb, acc + units[key] * (n as nat));
            }
        }
    }
}

/// Starting a total `d` higher moves it `d` higher, or past the range of
/// `Duration`.
proof fn lemma_eval_offset(
    units: Map<Seq<char>, nat>,
    ic: bool,
    toks: Seq<TokenModel>,
    acc: nat,
    d: nat,
)
    requires
        eval_from(units, ic, toks, acc) is Ok,
        acc + d <= max_nanos(),
    ensures
        eval_from(units, ic, toks, acc + d) == (if eval_from(units, ic, toks, acc)->Ok_0 + d
            <= max_nanos() {
            Ok::<nat, ErrorModel>(eval_from(units, ic, toks, acc)->Ok_0 + d)
        } else {
            Err::<nat, ErrorModel>(ErrorModel::DurationOverflow)
        }),
    decreases toks.len(),
{
    if toks.len() > 1 {
        if let TokenModel::Number(n) = toks[0] {
            if let TokenModel::Unit(u) = toks[1] {
                let key = unit_key(u, ic);
                let c = units[key] * (n as nat);
                lemma_eval_bounds(units, ic, toks.skip(2), acc + c);
                if acc + d + c <= max_nanos() {
                    lemma_eval_offset(units, ic, toks.skip(2), acc + c, d);
                    assert(acc + d + c == (acc + c) + d);
                }
            }
        }
    }
}

/// With case ignored, lowering unit tokens changes nothing in the total.
proof fn lemma_eval_lowered(
    units: Map<Seq<char>, nat>,
    toks: Seq<TokenModel>,
    acc: nat,
)
    ensures
        eval_from(units, true, toks.map_values(|t: TokenModel| lower_token(t)), acc) == eval_from(
            units,
            true,
            toks,
            acc,
        ),
    decreases toks.len(),
{
    let lt = toks.map_values(|t: TokenModel| lower_token(t));
    if toks.len() > 0 {
        if toks.len() >= 2 {
            if let TokenModel::Unit(u) = toks[1] {
                lemma_lower_seq_idempotent(u);
            }
            assert(lt.skip(2) =~= toks.skip(2).map_values(|t: TokenModel| lower_token(t)));
            if let TokenModel::Number(n) = toks[0] {
                if let TokenModel::Unit(u) = toks[1] {
                    let key = unit_key(u, true);
                    lemma_eval_lowered(units, toks.skip(2), acc + units[key] * (n as nat));
                }
            }
        }
    }
}

// ---------------------------------------------------------------------
// Letter case
// ---------------------------------------------------------------------

/// A token with its letters lowered.
pub open spec fn lower_token(t: TokenModel) -> TokenModel {
    match t {
        TokenModel::Number(n) => TokenModel::Number(n),
        TokenModel::Unit(u) => TokenModel::Unit(lower_seq(u)),
    }
}

proof fn lemma_lower_char(c: char)
    ensures
        is_digit(lower(c)) == is_digit(c),
        is_letter(lower(c)) == is_letter(c),
        is_separator(lower(c)) == is_separator(c),
        lower(lower(c)) == lower(c),
        !is_letter(c) ==> lower(c) == c,
{
}

proof fn lemma_lower_seq_idempotent(u: Seq<char>)
    ensures
        lower_seq(lower_seq(u)) == lower_seq(u),
{
    assert forall|k: int| 0 <= k < u.len() implies lower_seq(lower_seq(u))[k] == lower_seq(u)[k] by {
        lemma_lower_char(u[k]);
    }
    assert(lower_seq(lower_seq(u)) =~= lower_seq(u));
}

proof fn lemma_run_ends_lowered(s: Seq<char>, i: int)
    requires
        0 <= i <= s.len(),
    ensures
        digit_run_end(lower_seq(s), i) == digit_run_end(s, i),
        letter_run_end(lower_seq(s), i) == letter_run_end(s, i),
    decreases s.len() - i,
{
    if i < s.len() {
        lemma_lower_char(s[i]);
        lemma_run_ends_lowered(s, i + 1);
    }
}

/// Scanning lowered input reads the same tokens, with unit letters lowered,
/// and meets the same errors.
proof fn lemma_scan_lowered(s: Seq<char>, i: int)
    requires
        0 <= i <= s.len(),
    ensures
        scan_from(lower_seq(s), i) == (match scan_from(s, i) {
            Ok(ts) => Ok(ts.map_values(|t: TokenModel| lower_token(t))),
            Err(e) => Err::<Seq<TokenModel>, ErrorModel>(e),
        }),
    decreases s.len() - i,
{
    let ls = lower_seq(s);
    if i < s.len() {
        let c = s[i];
        lemma_lower_char(c);
        assert(ls[i] == lower(c));
        lemma_run_ends_lowered(s, i);
        if is_separator(c) {
            lemma_scan_lowered(s, i + 1);
        } else if is_digit(c) {
            lemma_digit_run_end(s, i);
            let e = digit_run_end(s, i);
            assert forall|k: int| i <= k < e implies #[trigger] ls[k] == s[k] by {
                lemma_lower_char(s[k]);
            }
            assert(ls.subrange(i, e) =~= s.subrange(i, e));
            lemma_scan_lowered(s, e);
            let t = seq![TokenModel::Number(decimal_value(s.subrange(i, e)) as u32)];
            match scan_from(s, e) {
                Ok(rest) => {
                    assert((t + rest).map_values(|t: TokenModel| lower_token(t)) =~= t + rest.map_values(
                        |t: TokenModel| lower_token(t),
                    ));
                },
                Err(_) => {},
            }
        } else if is_letter(c) {
            lemma_letter_run_end(s, i);
            let e = letter_run_end(s, i);
            assert(ls.subrange(i, e) =~= lower_seq(s.subrange(i, e)));
            lemma_scan_lowered(s, e);
            let t = seq![TokenModel::Unit(s.subrange(i, e))];
            let lt = seq![TokenModel::Unit(lower_seq(s.subrange(i, e)))];
            match scan_from(s, e) {
                Ok(rest) => {
                    assert((t + rest).map_values(|t: TokenModel| lower_token(t)) =~= lt + rest.map_values(
                        |t: TokenModel| lower_token(t),
                    ));
                },
                Err(_) => {},
            }
        }
    } else {
        assert(Seq::<TokenModel>::empty().map_values(|t: TokenModel| lower_token(t)) =~= Seq::<
            TokenModel,
        >::empty());
    }
}

// ---------------------------------------------------------------------
// Laws
// ---------------------------------------------------------------------

/// Input made only of whitespace and commas, the empty input among it,
/// parses to the empty span.
pub proof fn law_separators_only_parse_to_zero(
    units: Map<Seq<char>, nat>,
    ignore_case: bool,
    input: Seq<char>,
)
    requires
        forall|k: int| 0 <= k < input.len() ==> is_separator(#[trigger] input[k]),
    ensures
        spec_parse(units, ignore_case, input) == Ok::<nat, ErrorModel>(0),
{
    lemma_scan_separators(input, 0);
}

/// A number written in decimal digits, then a unit name, parses to the
/// number times the unit's length; or to the error for a number above
/// `u32::MAX`, an unknown unit, or a product beyond the longest `Duration`.
pub proof fn law_number_then_unit(
    units: Map<Seq<char>, nat>,
    ignore_case: bool,
    digits: Seq<char>,
    name: Seq<char>,
)
    requires
        digits.len() > 0,
        forall|k: int| 0 <= k < digits.len() ==> is_digit(#[trigger] digits[k]),
        valid_unit_name(name),
    ensures
        spec_parse(units, ignore_case, digits + name) == ({
            let n = decimal_value(digits);
            let key = unit_key(name, ignore_case);
            if n > u32::MAX {
                Err(ErrorModel::Overflow(digits))
            } else if !units.contains_key(key) {
                Err(ErrorModel::UnexpectedUnit(key))
            } else if units[key] * n > max_nanos() {
                Err(ErrorModel::DurationOverflow)
            } else {
                Ok(units[key] * n)
            }
        }),
{
    lemma_scan_number_then_unit(digits, name);
    let n = decimal_value(digits);
    if n <= u32::MAX {
        let toks = seq![TokenModel::Number(n as u32), TokenModel::Unit(name)];
        assert(toks.skip(2) =~= Seq::<TokenModel>::empty());
        let key = unit_key(name, ignore_case);
        if units.contains_key(key) {
            let c = units[key] * ((n as u32) as nat);
            assert(c == units[key] * n);
            if c <= max_nanos() {
                assert(eval_from(units, ignore_case, toks.skip(2), 0 + c) == Ok::<nat, ErrorModel>(
                    c,
                ));
            }
        }
    }
}

/// A number written in decimal digits, then a unit name, scans to that
/// number and that unit; or to the error for a number above `u32::MAX`.
proof fn lemma_scan_number_then_unit(digits: Seq<char>, name: Seq<char>)
    requires
        digits.len() > 0,
        forall|k: int| 0 <= k < digits.len() ==> is_digit(#[trigger] digits[k]),
        valid_unit_name(name),
    ensures
        scan(digits + name) == (if decimal_value(digits) > u32::MAX {
            Err::<Seq<TokenModel>, ErrorModel>(ErrorModel::Overflow(digits))
        } else {
            Ok(seq![TokenModel::Number(decimal_value(digits) as u32), TokenModel::Unit(name)])
        }),
{
    let s = digits + name;
    let d = digits.len() as int;
    assert forall|k: int| 0 <= k <= d implies digit_run_end(s, k) == d by {
        lemma_digit_run_end_in(digits, name, k);
    }
    assert forall|k: int| d <= k <= s.len() implies letter_run_end(s, k) == s.len() by {
        lemma_letter_run_end_in(digits, name, k);
    }
    assert(s[0] == digits[0]);
    assert(s.subrange(0, d) =~= digits);
    assert(s[d] == name[0]);
    assert(s.subrange(d, s.len() as int) =~= name);
    let n = decimal_value(digits);
    assert(digit_run_end(s, 0) == d);
    assert(is_digit(s[0]));
    if n <= u32::MAX {
        let tail = seq![TokenModel::Unit(name)] + Seq::<TokenModel>::empty();
        let toks = seq![TokenModel::Number(n as u32)] + tail;
        assert(scan_from(s, s.len() as int) == Ok::<Seq<TokenModel>, ErrorModel>(Seq::empty()));
        assert(letter_run_end(s, d) == s.len());
        assert(is_letter(s[d]));
        assert(scan_from(s, d) == Ok::<Seq<TokenModel>, ErrorModel>(tail));
        assert(toks =~= seq![TokenModel::Number(n as u32), TokenModel::Unit(name)]);
    } else {
        assert(scan(s) == Err::<Seq<TokenModel>, ErrorModel>(ErrorModel::Overflow(digits)));
    }
}

proof fn lemma_digit_run_end_in(digits: Seq<char>, name: Seq<char>, k: int)
    requires
        0 <= k <= digits.len(),
        forall|j: int| 0 <= j < digits.len() ==> is_digit(#[trigger] digits[j]),
        valid_unit_name(name),
    ensures
        digit_run_end(digits + name, k) == digits.len(),
    decreases digits.len() - k,
{
    let s = digits + name;
    if k < digits.len() {
        assert(s[k] == digits[k]);
        lemma_digit_run_end_in(digits, name, k + 1);
    } else {
        assert(s[k] == name[0]);
        assert(is_letter(name[0]));
    }
}

proof fn lemma_letter_run_end_in(digits: Seq<char>, name: Seq<char>, k: int)
    requires
        digits.len() <= k <= digits.len() + name.len(),
        valid_unit_name(name),
    ensures
        letter_run_end(digits + name, k) == digits.len() + name.len(),
    decreases digits.len() + name.len() - k,
{
    let s = digits + name;
    if k < s.len() {
        assert(s[k] == name[k - digits.len()]);
        lemma_letter_run_end_in(digits, name, k + 1);
    }
}

/// Two duration strings joined by whitespace or a comma parse to the sum of
/// what each parses to, or to `DurationOverflow` where the sum exceeds the
/// longest `Duration`.
pub proof fn law_join_adds(
    units: Map<Seq<char>, nat>,
    ignore_case: bool,
    a: Seq<char>,
    sep: char,
    b: Seq<char>,
)
    requires
        is_separator(sep),
        spec_parse(units, ignore_case, a) is Ok,
        spec_parse(units, ignore_case, b) is Ok,
    ensures
        spec_parse(units, ignore_case, a + seq![sep] + b) == ({
            let x = spec_parse(units, ignore_case, a)->Ok_0;
            let y = spec_parse(units, ignore_case, b)->Ok_0;
            if x + y <= max_nanos() {
                Ok(x + y)
            } else {
                Err(ErrorModel::DurationOverflow)
            }
        }),
{
    let ta = scan(a)->Ok_0;
    let tb = scan(b)->Ok_0;
    lemma_scan_prefix(a, sep, b, 0);
    assert(scan(a + seq![sep] + b) == Ok::<Seq<TokenModel>, ErrorModel>(ta + tb));
    lemma_eval_concat(units, ignore_case, ta, tb, 0);
    let x = evaluate(units, ignore_case, ta)->Ok_0;
    lemma_eval_bounds(units, ignore_case, ta, 0);
    lemma_eval_offset(units, ignore_case, tb, 0, x);
    assert(0 + x == x);
}

/// Two duration strings that both parse, joined by whitespace or a comma,
/// parse to the same result in either order.
pub proof fn law_join_commutes(
    units: Map<Seq<char>, nat>,
    ignore_case: bool,
    a: Seq<char>,
    sep: char,
    b: Seq<char>,
)
    requires
        is_separator(sep),
        spec_parse(units, ignore_case, a) is Ok,
        spec_parse(units, ignore_case, b) is Ok,
    ensures
        spec_parse(units, ignore_case, a + seq![sep] + b) == spec_parse(
            units,
            ignore_case,
            b + seq![sep] + a,
        ),
{
    law_join_adds(units, ignore_case, a, sep, b);
    law_join_adds(units, ignore_case, b, sep, a);
}

/// A parser that ignores case reads any input as it reads the input with
/// its ASCII letters lowercased.
pub proof fn law_ignore_case_reads_lowercase(units: Map<Seq<char>, nat>, input: Seq<char>)
    ensures
        spec_parse(units, true, input) == spec_parse(units, true, lower_seq(input)),
{
    lemma_scan_lowered(input, 0);
    assert(lower_seq(input).len() == input.len());
    match scan(input) {
        Ok(ts) => {
            lemma_eval_lowered(units, ts, 0);
        },
        Err(_) => {},
    }
}

/// Zeros before a number do not change it.
pub proof fn law_leading_zeros(zeros: Seq<char>, digits: Seq<char>)
    requires
        forall|k: int| 0 <= k < zeros.len() ==> #[trigger] zeros[k] == '0',
    ensures
        decimal_value(zeros + digits) == decimal_value(digits),
    decreases digits.len(),
{
    if digits.len() == 0 {
        assert(zeros + digits =~= zeros);
        lemma_zeros_value(zeros);
    } else {
        assert((zeros + digits).drop_last() =~= zeros + digits.drop_last());
        assert((zeros + digits).last() == digits.last());
        law_leading_zeros(zeros, digits.drop_last());
    }
}

proof fn lemma_zeros_value(zeros: Seq<char>)
    requires
        forall|k: int| 0 <= k < zeros.len() ==> #[trigger] zeros[k] == '0',
    ensures
        decimal_value(zeros) == 0,
    decreases zeros.len(),
{
    if zeros.len() > 0 {
        assert(zeros.last() == '0');
        lemma_zeros_value(zeros.drop_last());
    }
}

} // verus!

verus! {

// ---------------------------------------------------------------------
// Many pieces
// ---------------------------------------------------------------------

/// The pieces one after another, with `sep` between each two.
pub open spec fn join_pieces(pieces: Seq<Seq<char>>, sep: char) -> Seq<char>
    decreases pieces.len(),
{
    if pieces.len() == 0 {
        Seq::empty()
    } else if pieces.len() == 1 {
        pieces[0]
    } else {
        join_pieces(pieces.drop_last(), sep) + seq![sep] + pieces.last()
    }
}

/// The sum of what each piece parses to, in nanoseconds.
pub open spec fn pieces_total(
    units: Map<Seq<char>, nat>,
    ignore_case: bool,
    pieces: Seq<Seq<char>>,
) -> nat
    decreases pieces.len(),
{
    if pieces.len() == 0 {
        0
    } else {
        pieces_total(units, ignore_case, pieces.drop_last()) + spec_parse(
            units,
            ignore_case,
            pieces.last(),
        )->Ok_0
    }
}

/// What parses is within the range of `Duration`.
proof fn lemma_parse_bounded(units: Map<Seq<char>, nat>, ic: bool, s: Seq<char>)
    requires
        spec_parse(units, ic, s) is Ok,
    ensures
        spec_parse(units, ic, s)->Ok_0 <= max_nanos(),
{
    lemma_eval_bounds(units, ic, scan(s)->Ok_0, 0);
}

/// An overflowing total stays an overflow whatever tokens follow.
proof fn lemma_eval_overflow_prefix(
    units: Map<Seq<char>, nat>,
    ic: bool,
    ta: Seq<TokenModel>,
    tb: Seq<TokenModel>,
    acc: nat,
)
    requires
        eval_from(units, ic, ta, acc) == Err::<nat, ErrorModel>(ErrorModel::DurationOverflow),
    ensures
        eval_from(units, ic, ta + tb, acc) == Err::<nat, ErrorModel>(ErrorModel::DurationOverflow),
    decreases ta.len(),
{
    if ta.len() > 1 {
        assert((ta + tb)[0] == ta[0]);
        assert((ta + tb)[1] == ta[1]);
        assert((ta + tb).skip(2) =~= ta.skip(2) + tb);
        if let TokenModel::Number(n) = ta[0] {
            if let TokenModel::Unit(u) = ta[1] {
                let key = unit_key(u, ic);
                if units.contains_key(key) && units[key] * (n as nat) <= max_nanos() && acc
                    + units[key] * (n as nat) <= max_nanos() {
                    lemma_eval_overflow_prefix(
                        units,
                        ic,
                        ta.skip(2),
                        tb,
                        acc + units[key] * (n as nat),
                    );
                }
            }
        }
    }
}

/// Pieces that each scan join into input that scans, to their tokens one
/// after another.
proof fn lemma_join_scans(pieces: Seq<Seq<char>>, sep: char)
    requires
        is_separator(sep),
        forall|i: int| 0 <= i < pieces.len() ==> #[trigger] scan(pieces[i]) is Ok,
    ensures
        scan(join_pieces(pieces, sep)) is Ok,
    decreases pieces.len(),
{
    if pieces.len() == 0 {
        lemma_scan_separators(Seq::<char>::empty(), 0);
    } else if pieces.len() >= 2 {
        let rest = pieces.drop_last();
        assert forall|i: int| 0 <= i < rest.len() implies #[trigger] scan(rest[i]) is Ok by {
            assert(rest[i] == pieces[i]);
        }
        lemma_join_scans(rest, sep);
        assert(scan(pieces[pieces.len() - 1]) is Ok);
        lemma_scan_prefix(join_pieces(rest, sep), sep, pieces.last(), 0);
    } else {
        assert(scan(pieces[0]) is Ok);
    }
}

/// Removing one piece takes its value off the total.
proof fn lemma_total_remove(
    units: Map<Seq<char>, nat>,
    ic: bool,
    s: Seq<Seq<char>>,
    j: int,
)
    requires
        0 <= j < s.len(),
    ensures
        pieces_total(units, ic, s) == pieces_total(units, ic, s.remove(j)) + spec_parse(
            units,
            ic,
            s[j],
        )->Ok_0,
    decreases s.len(),
{
    if j == s.len() - 1 {
        assert(s.remove(j) =~= s.drop_last());
    } else {
        assert(s.remove(j).drop_last() =~= s.drop_last().remove(j));
        assert(s.remove(j).last() == s.last());
        assert(s.drop_last()[j] == s[j]);
        lemma_total_remove(units, ic, s.drop_last(), j);
    }
}

/// The total does not depend on the order of the pieces.
proof fn lemma_total_permutation(
    units: Map<Seq<char>, nat>,
    ic: bool,
    s1: Seq<Seq<char>>,
    s2: Seq<Seq<char>>,
)
    requires
        s1.to_multiset() == s2.to_multiset(),
    ensures
        pieces_total(units, ic, s1) == pieces_total(units, ic, s2),
    decreases s2.len(),
{
    broadcast use vstd::seq_lib::group_to_multiset_ensures;
    broadcast use vstd::multiset::group_multiset_axioms;

    if s2.len() == 0 {
        assert(s1.to_multiset().len() == 0);
    } else {
        let x = s2.last();
        let rest2 = s2.drop_last();
        assert(s2 =~= rest2.push(x));
        assert(s2.to_multiset() =~= rest2.to_multiset().insert(x));
        assert(s2.contains(x)) by {
            assert(s2[s2.len() - 1] == x);
        }
        assert(s2.to_multiset().count(x) > 0);
        assert(s1.to_multiset().count(x) > 0);
        assert(s1.contains(x));
        let j = choose|j: int| 0 <= j < s1.len() && s1[j] == x;
        let rest1 = s1.remove(j);
        assert(rest1.to_multiset() =~= s1.to_multiset().remove(x));
        assert(rest2.to_multiset() =~= s2.to_multiset().remove(x));
        lemma_total_permutation(units, ic, rest1, rest2);
        lemma_total_remove(units, ic, s1, j);
    }
}

/// Pieces that each parse, joined by whitespace or a comma, parse to the sum
/// of what each parses to, or to `DurationOverflow` where that sum exceeds
/// the longest `Duration`.
pub proof fn law_join_all_adds(
    units: Map<Seq<char>, nat>,
    ignore_case: bool,
    pieces: Seq<Seq<char>>,
    sep: char,
)
    requires
        is_separator(sep),
        forall|i: int| 0 <= i < pieces.len() ==> #[trigger] spec_parse(units, ignore_case, pieces[i]) is Ok,
    ensures
        spec_parse(units, ignore_case, join_pieces(pieces, sep)) == (if pieces_total(
            units,
            ignore_case,
            pieces,
        ) <= max_nanos() {
            Ok::<nat, ErrorModel>(pieces_total(units, ignore_case, pieces))
        } else {
            Err::<nat, ErrorModel>(ErrorModel::DurationOverflow)
        }),
    decreases pieces.len(),
{
    if pieces.len() == 0 {
        law_separators_only_parse_to_zero(units, ignore_case, Seq::<char>::empty());
    } else if pieces.len() == 1 {
        assert(spec_parse(units, ignore_case, pieces[0]) is Ok);
        lemma_parse_bounded(units, ignore_case, pieces[0]);
        assert(pieces.drop_last().len() == 0);
        assert(pieces_total(units, ignore_case, pieces.drop_last()) == 0);
        assert(pieces.last() == pieces[0]);
        assert(join_pieces(pieces, sep) == pieces[0]);
    } else {
        let rest = pieces.drop_last();
        let b = pieces.last();
        let a = join_pieces(rest, sep);
        assert forall|i: int| 0 <= i < rest.len() implies #[trigger] spec_parse(
            units,
            ignore_case,
            rest[i],
        ) is Ok by {
            assert(rest[i] == pieces[i]);
        }
        assert(spec_parse(units, ignore_case, pieces[pieces.len() - 1]) is Ok);
        law_join_all_adds(units, ignore_case, rest, sep);
        assert(join_pieces(pieces, sep) == a + seq![sep] + b);
        assert(pieces_total(units, ignore_case, pieces) == pieces_total(units, ignore_case, rest)
            + spec_parse(units, ignore_case, b)->Ok_0);
        if pieces_total(units, ignore_case, rest) <= max_nanos() {
            law_join_adds(units, ignore_case, a, sep, b);
        } else {
            assert forall|i: int| 0 <= i < rest.len() implies #[trigger] scan(rest[i]) is Ok by {
                assert(spec_parse(units, ignore_case, rest[i]) is Ok);
            }
            lemma_join_scans(rest, sep);
            assert(scan(b) is Ok);
            lemma_scan_prefix(a, sep, b, 0);
            let ta = scan(a)->Ok_0;
            let tb = scan(b)->Ok_0;
            assert(scan(a + seq![sep] + b) == Ok::<Seq<TokenModel>, ErrorModel>(ta + tb));
            lemma_eval_overflow_prefix(units, ignore_case, ta, tb, 0);
        }
    }
}

/// Pieces that each parse, joined by whitespace or a comma, parse to the
/// same result in any order.
pub proof fn law_join_any_order(
    units: Map<Seq<char>, nat>,
    ignore_case: bool,
    pieces: Seq<Seq<char>>,
    reordered: Seq<Seq<char>>,
    sep: char,
)
    requires
        is_separator(sep),
        forall|i: int| 0 <= i < pieces.len() ==> #[trigger] spec_parse(units, ignore_case, pieces[i]) is Ok,
        reordered.to_multiset() == pieces.to_multiset(),
    ensures
        spec_parse(units, ignore_case, join_pieces(reordered, sep)) == spec_parse(
            units,
            ignore_case,
            join_pieces(pieces, sep),
        ),
{
    broadcast use vstd::seq_lib::group_to_multiset_ensures;

    assert forall|i: int| 0 <= i < reordered.len() implies #[trigger] spec_parse(
        units,
        ignore_case,
        reordered[i],
    ) is Ok by {
        assert(reordered.contains(reordered[i]));
        assert(reordered.to_multiset().count(reordered[i]) > 0);
        assert(pieces.to_multiset().count(reordered[i]) > 0);
        assert(pieces.contains(reordered[i]));
        let j = choose|j: int| 0 <= j < pieces.len() && pieces[j] == reordered[i];
        assert(spec_parse(units, ignore_case, pieces[j]) is Ok);
    }
    law_join_all_adds(units, ignore_case, pieces, sep);
    law_join_all_adds(units, ignore_case, reordered, sep);
    lemma_total_permutation(units, ignore_case, reordered, pieces);
}

// ---------------------------------------------------------------------
// Pieces of one number and one unit
// ---------------------------------------------------------------------

/// A piece made of ASCII digits, then a unit name, such as `3s` or `2min`.
pub open spec fn is_component(p: Seq<char>) -> bool {
    &&& digit_run_end(p, 0) > 0
    &&& valid_unit_name(p.subrange(digit_run_end(p, 0), p.len() as int))
}

/// Tokens that come as number-unit pairs.
spec fn paired(t: Seq<TokenModel>) -> bool
    decreases t.len(),
{
    if t.len() == 0 {
        true
    } else {
        &&& t.len() >= 2
        &&& t[0] is Number
        &&& t[1] is Unit
        &&& paired(t.skip(2))
    }
}

proof fn lemma_paired_concat(ta: Seq<TokenModel>, tb: Seq<TokenModel>)
    requires
        paired(ta),
        paired(tb),
    ensures
        paired(ta + tb),
    decreases ta.len(),
{
    if ta.len() == 0 {
        assert(ta + tb =~= tb);
    } else {
        assert((ta + tb)[0] == ta[0]);
        assert((ta + tb)[1] == ta[1]);
        assert((ta + tb).skip(2) =~= ta.skip(2) + tb);
        lemma_paired_concat(ta.skip(2), tb);
    }
}

/// A piece of one number and one unit that scans gives one pair.
proof fn lemma_scan_component(p: Seq<char>)
    requires
        is_component(p),
        scan(p) is Ok,
    ensures
        paired(scan(p)->Ok_0),
{
    let d = digit_run_end(p, 0);
    lemma_digit_run_end(p, 0);
    let digits = p.subrange(0, d);
    let name = p.subrange(d, p.len() as int);
    assert(p =~= digits + name);
    assert forall|k: int| 0 <= k < digits.len() implies is_digit(#[trigger] digits[k]) by {
        assert(digits[k] == p[k]);
    }
    lemma_scan_number_then_unit(digits, name);
    let t = scan(p)->Ok_0;
    assert(t == seq![TokenModel::Number(decimal_value(digits) as u32), TokenModel::Unit(name)]);
    assert(t.skip(2) =~= Seq::<TokenModel>::empty());
    assert(paired(t.skip(2)));
}

/// Joined pieces of one number and one unit that scan give number-unit
/// pairs, and each piece scans alone.
proof fn lemma_join_components_paired(pieces: Seq<Seq<char>>, sep: char)
    requires
        is_separator(sep),
        forall|i: int| 0 <= i < pieces.len() ==> is_component(#[trigger] pieces[i]),
        scan(join_pieces(pieces, sep)) is Ok,
    ensures
        paired(scan(join_pieces(pieces, sep))->Ok_0),
    decreases pieces.len(),
{
    if pieces.len() == 0 {
        lemma_scan_separators(Seq::<char>::empty(), 0);
    } else if pieces.len() == 1 {
        assert(is_component(pieces[0]));
        lemma_scan_component(pieces[0]);
    } else {
        let rest = pieces.drop_last();
        let b = pieces.last();
        let a = join_pieces(rest, sep);
        assert(join_pieces(pieces, sep) == a + seq![sep] + b);
        lemma_scan_prefix(a, sep, b, 0);
        assert(scan(a) is Ok);
        assert(scan(b) is Ok);
        assert forall|i: int| 0 <= i < rest.len() implies is_component(#[trigger] rest[i]) by {
            assert(rest[i] == pieces[i]);
        }
        lemma_join_components_paired(rest, sep);
        assert(is_component(pieces[pieces.len() - 1]));
        lemma_scan_component(b);
        lemma_paired_concat(scan(a)->Ok_0, scan(b)->Ok_0);
    }
}

/// Where number-unit pairs followed by more tokens add up, the pairs alone
/// add up.
proof fn lemma_eval_prefix_ok(
    units: Map<Seq<char>, nat>,
    ic: bool,
    ta: Seq<TokenModel>,
    tb: Seq<TokenModel>,
    acc: nat,
)
    requires
        paired(ta),
        eval_from(units, ic, ta + tb, acc) is Ok,
    ensures
        eval_from(units, ic, ta, acc) is Ok,
    decreases ta.len(),
{
    if ta.len() > 0 {
        assert((ta + tb)[0] == ta[0]);
        assert((ta + tb)[1] == ta[1]);
        assert((ta + tb).skip(2) =~= ta.skip(2) + tb);
        if let TokenModel::Number(n) = ta[0] {
            if let TokenModel::Unit(u) = ta[1] {
                let key = unit_key(u, ic);
                lemma_eval_prefix_ok(units, ic, ta.skip(2), tb, acc + units[key] * (n as nat));
            }
        }
    }
}

/// Tokens that add up from some start add up from any lower start.
proof fn lemma_eval_lower_start(
    units: Map<Seq<char>, nat>,
    ic: bool,
    toks: Seq<TokenModel>,
    acc: nat,
    d: nat,
)
    requires
        eval_from(units, ic, toks, acc + d) is Ok,
    ensures
        eval_from(units, ic, toks, acc) is Ok,
    decreases toks.len(),
{
    if toks.len() > 1 {
        if let TokenModel::Number(n) = toks[0] {
            if let TokenModel::Unit(u) = toks[1] {
                let key = unit_key(u, ic);
                let c = units[key] * (n as nat);
                assert(acc + d + c == (acc + c) + d);
                lemma_eval_lower_start(units, ic, toks.skip(2), acc + c, d);
            }
        }
    }
}

/// Where pieces of one number and one unit, joined by whitespace or a
/// comma, parse, each piece parses alone.
pub proof fn law_joined_components_parse_alone(
    units: Map<Seq<char>, nat>,
    ignore_case: bool,
    pieces: Seq<Seq<char>>,
    sep: char,
)
    requires
        is_separator(sep),
        forall|i: int| 0 <= i < pieces.len() ==> is_component(#[trigger] pieces[i]),
        spec_parse(units, ignore_case, join_pieces(pieces, sep)) is Ok,
    ensures
        forall|i: int| 0 <= i < pieces.len() ==> #[trigger] spec_parse(units, ignore_case, pieces[i]) is Ok,
    decreases pieces.len(),
{
    if pieces.len() == 1 {
        assert(join_pieces(pieces, sep) == pieces[0]);
    } else if pieces.len() >= 2 {
        let rest = pieces.drop_last();
        let b = pieces.last();
        let a = join_pieces(rest, sep);
        assert(join_pieces(pieces, sep) == a + seq![sep] + b);
        lemma_scan_prefix(a, sep, b, 0);
        let ta = scan(a)->Ok_0;
        let tb = scan(b)->Ok_0;
        assert(scan(a + seq![sep] + b) == Ok::<Seq<TokenModel>, ErrorModel>(ta + tb));
        assert forall|i: int| 0 <= i < rest.len() implies is_component(#[trigger] rest[i]) by {
            assert(rest[i] == pieces[i]);
        }
        lemma_join_components_paired(rest, sep);
        lemma_eval_prefix_ok(units, ignore_case, ta, tb, 0);
        lemma_eval_concat(units, ignore_case, ta, tb, 0);
        let x = eval_from(units, ignore_case, ta, 0)->Ok_0;
        assert(0 + x == x);
        lemma_eval_lower_start(units, ignore_case, tb, 0, x);
        law_joined_components_parse_alone(units, ignore_case, rest, sep);
        assert forall|i: int| 0 <= i < pieces.len() implies #[trigger] spec_parse(
            units,
            ignore_case,
            pieces[i],
        ) is Ok by {
            if i < rest.len() {
                assert(pieces[i] == rest[i]);
            } else {
                assert(pieces[i] == b);
            }
        }
    }
}

/// Pieces of one number and one unit, joined by whitespace or a comma,
/// parse to the same result in any order, wherever one order parses.
pub proof fn law_components_any_order(
    units: Map<Seq<char>, nat>,
    ignore_case: bool,
    pieces: Seq<Seq<char>>,
    reordered: Seq<Seq<char>>,
    sep: char,
)
    requires
        is_separator(sep),
        forall|i: int| 0 <= i < pieces.len() ==> is_component(#[trigger] pieces[i]),
        reordered.to_multiset() == pieces.to_multiset(),
        spec_parse(units, ignore_case, join_pieces(pieces, sep)) is Ok,
    ensures
        spec_parse(units, ignore_case, join_pieces(reordered, sep)) == spec_parse(
            units,
            ignore_case,
            join_pieces(pieces, sep),
        ),
{
    law_joined_components_parse_alone(units, ignore_case, pieces, sep);
    law_join_any_order(units, ignore_case, pieces, reordered, sep);
}

// ---------------------------------------------------------------------
// Digits and decimal numbers
// ---------------------------------------------------------------------

/// The ten decimal digits, in order of value.
pub open spec fn decimal_digits() -> Seq<char> {
    "0123456789"@
}

/// The decimal spelling of `n`, with no leading zeros.
pub open spec fn decimal_spelling(n: nat) -> Seq<char>
    decreases n,
{
    if n < 10 {
        seq![decimal_digits()[n as int]]
    } else {
        decimal_spelling(n / 10).push(decimal_digits()[(n % 10) as int])
    }
}

/// Each of the ten digits is a digit, and its value is its place in
/// `0123456789`; a character is a digit exactly when it is one of them.
pub proof fn law_digit_values(c: char, d: int)
    requires
        0 <= d < 10,
    ensures
        decimal_digits().len() == 10,
        is_digit(decimal_digits()[d]),
        digit_value(decimal_digits()[d]) == d,
        is_digit(c) <==> decimal_digits().contains(c),
{
    reveal_strlit("0123456789");
    let t = decimal_digits();
    assert(t.len() == 10);
    assert(t[0] == '0' && t[1] == '1' && t[2] == '2' && t[3] == '3' && t[4] == '4');
    assert(t[5] == '5' && t[6] == '6' && t[7] == '7' && t[8] == '8' && t[9] == '9');
    if is_digit(c) {
        let k = c as u32 - '0' as u32;
        assert(0 <= k < 10);
        if k == 0 { assert(t[0] == c); }
        else if k == 1 { assert(t[1] == c); }
        else if k == 2 { assert(t[2] == c); }
        else if k == 3 { assert(t[3] == c); }
        else if k == 4 { assert(t[4] == c); }
        else if k == 5 { assert(t[5] == c); }
        else if k == 6 { assert(t[6] == c); }
        else if k == 7 { assert(t[7] == c); }
        else if k == 8 { assert(t[8] == c); }
        else { assert(t[9] == c); }
    }
}

/// The decimal spelling of a number is a non-empty run of digits that
/// reads back as that number.
pub proof fn law_decimal_spelling_reads_back(n: nat)
    ensures
        decimal_spelling(n).len() > 0,
        forall|k: int| 0 <= k < decimal_spelling(n).len() ==> is_digit(#[trigger] decimal_spelling(n)[k]),
        decimal_value(decimal_spelling(n)) == n,
    decreases n,
{
    let s = decimal_spelling(n);
    if n < 10 {
        law_digit_values(' ', n as int);
        assert(s.drop_last() =~= Seq::<char>::empty());
        assert(decimal_value(s.drop_last()) == 0);
        assert(decimal_value(s) == digit_value(s.last()));
    } else {
        law_decimal_spelling_reads_back(n / 10);
        law_digit_values(' ', (n % 10) as int);
        assert(s.drop_last() =~= decimal_spelling(n / 10));
        assert(s.last() == decimal_digits()[(n % 10) as int]);
        assert forall|k: int| 0 <= k < s.len() implies is_digit(#[trigger] s[k]) by {
            if k < s.len() - 1 {
                assert(s[k] == decimal_spelling(n / 10)[k]);
            }
        }
        assert(decimal_value(s) == decimal_value(s.drop_last()) * 10 + digit_value(s.last()));
        assert((n / 10) * 10 + n % 10 == n);
    }
}

/// A number no greater than `u32::MAX`, spelled in decimal and followed by
/// a unit name, scans to that number and that unit.
pub proof fn law_scan_spelled_number(n: nat, name: Seq<char>)
    requires
        n <= u32::MAX,
        valid_unit_name(name),
    ensures
        scan(decimal_spelling(n) + name) == Ok::<Seq<TokenModel>, ErrorModel>(
            seq![TokenModel::Number(n as u32), TokenModel::Unit(name)],
        ),
{
    law_decimal_spelling_reads_back(n);
    lemma_scan_number_then_unit(decimal_spelling(n), name);
}

// ---------------------------------------------------------------------
// Letters and letter case
// ---------------------------------------------------------------------

/// The small ASCII letters, in alphabetical order.
pub open spec fn small_letters() -> Seq<char> {
    "abcdefghijklmnopqrstuvwxyz"@
}

/// The capital ASCII letters, in alphabetical order.
pub open spec fn capital_letters() -> Seq<char> {
    "ABCDEFGHIJKLMNOPQRSTUVWXYZ"@
}

/// The letter at place `i` of each alphabet has the code of `a`, or of `A`,
/// plus `i`.
proof fn lemma_letters_at(i: int)
    requires
        0 <= i < 26,
    ensures
        small_letters().len() == 26,
        capital_letters().len() == 26,
        small_letters()[i] as u32 == 97 + i,
        capital_letters()[i] as u32 == 65 + i,
{
    reveal_strlit("abcdefghijklmnopqrstuvwxyz");
    reveal_strlit("ABCDEFGHIJKLMNOPQRSTUVWXYZ");
    let t = small_letters();
    let u = capital_letters();
    if i == 0 {
        assert(t[0] == 'a' && u[0] == 'A');
    } else if i == 1 {
        assert(t[1] == 'b' && u[1] == 'B');
    } else if i == 2 {
        assert(t[2] == 'c' && u[2] == 'C');
    } else if i == 3 {
        assert(t[3] == 'd' && u[3] == 'D');
    } else if i == 4 {
        assert(t[4] == 'e' && u[4] == 'E');
    } else if i == 5 {
        assert(t[5] == 'f' && u[5] == 'F');
    } else if i == 6 {
        assert(t[6] == 'g' && u[6] == 'G');
    } else if i == 7 {
        assert(t[7] == 'h' && u[7] == 'H');
    } else if i == 8 {
        assert(t[8] == 'i' && u[8] == 'I');
    } else if i == 9 {
        assert(t[9] == 'j' && u[9] == 'J');
    } else if i == 10 {
        assert(t[10] == 'k' && u[10] == 'K');
    } else if i == 11 {
        assert(t[11] == 'l' && u[11] == 'L');
    } else if i == 12 {
        assert(t[12] == 'm' && u[12] == 'M');
    } else if i == 13 {
        assert(t[13] == 'n' && u[13] == 'N');
    } else if i == 14 {
        assert(t[14] == 'o' && u[14] == 'O');
    } else if i == 15 {
        assert(t[15] == 'p' && u[15] == 'P');
    } else if i == 16 {
        assert(t[16] == 'q' && u[16] == 'Q');
    } else if i == 17 {
        assert(t[17] == 'r' && u[17] == 'R');
    } else if i == 18 {
        assert(t[18] == 's' && u[18] == 'S');
    } else if i == 19 {
        assert(t[19] == 't' && u[19] == 'T');
    } else if i == 20 {
        assert(t[20] == 'u' && u[20] == 'U');
    } else if i == 21 {
        assert(t[21] == 'v' && u[21] == 'V');
    } else if i == 22 {
        assert(t[22] == 'w' && u[22] == 'W');
    } else if i == 23 {
        assert(t[23] == 'x' && u[23] == 'X');
    } else if i == 24 {
        assert(t[24] == 'y' && u[24] == 'Y');
    } else if i == 25 {
        assert(t[25] == 'z' && u[25] == 'Z');
    }
}

/// Characters of the same code are the same.
proof fn lemma_same_code(x: char, y: char)
    requires
        x as u32 == y as u32,
    ensures
        x == y,
{
    vstd::utf8::char_u32_cast(x, x as u32);
    vstd::utf8::char_u32_cast(y, y as u32);
}

/// A character is a letter exactly when it is one of the small or capital
/// ASCII letters.
pub proof fn law_letters(c: char)
    ensures
        is_letter(c) <==> (small_letters().contains(c) || capital_letters().contains(c)),
{
    lemma_letters_at(0);
    if 'a' <= c <= 'z' {
        let k = c as u32 - 97;
        lemma_letters_at(k as int);
        lemma_same_code(small_letters()[k as int], c);
        assert(small_letters()[k as int] == c);
    } else if 'A' <= c <= 'Z' {
        let k = c as u32 - 65;
        lemma_letters_at(k as int);
        lemma_same_code(capital_letters()[k as int], c);
        assert(capital_letters()[k as int] == c);
    }
    if small_letters().contains(c) {
        let i = choose|i: int| 0 <= i < small_letters().len() && small_letters()[i] == c;
        lemma_letters_at(i);
    }
    if capital_letters().contains(c) {
        let i = choose|i: int| 0 <= i < capital_letters().len() && capital_letters()[i] == c;
        lemma_letters_at(i);
    }
}

/// A unit name is valid exactly when it is non-empty and each of its
/// characters is a small or a capital ASCII letter.
pub proof fn law_unit_names(name: Seq<char>)
    ensures
        valid_unit_name(name) <==> (name.len() > 0 && forall|k: int|
            0 <= k < name.len() ==> small_letters().contains(#[trigger] name[k])
                || capital_letters().contains(name[k])),
{
    assert forall|k: int| 0 <= k < name.len() implies is_letter(#[trigger] name[k]) <==> (
    small_letters().contains(name[k]) || capital_letters().contains(name[k])) by {
        law_letters(name[k]);
    }
}

/// Lowering maps each capital letter to the small letter of the same place
/// in the alphabet, and leaves every other character as it is.
pub proof fn law_lower(c: char, i: int)
    requires
        0 <= i < 26,
    ensures
        lower(capital_letters()[i]) == small_letters()[i],
        lower(small_letters()[i]) == small_letters()[i],
        !capital_letters().contains(c) ==> lower(c) == c,
{
    lemma_letters_at(i);
    let small = small_letters()[i];
    vstd::utf8::char_u32_cast(small, small as u32);
    assert(lower(capital_letters()[i]) == (small as u32) as char);
    if 'A' <= c <= 'Z' {
        let k = c as u32 - 65;
        lemma_letters_at(k as int);
        lemma_same_code(capital_letters()[k as int], c);
        assert(capital_letters()[k as int] == c);
    }
}

/// Ignoring case, a parser reads any input as a case-sensitive parser
/// reads the input with its capitals lowered.
pub proof fn law_ignore_case_is_lowering(units: Map<Seq<char>, nat>, input: Seq<char>)
    ensures
        spec_parse(units, true, input) == spec_parse(units, false, lower_seq(input)),
{
    law_ignore_case_reads_lowercase(units, input);
    lemma_scan_lowered(input, 0);
    assert(lower_seq(input).len() == input.len());
    match scan(input) {
        Ok(ts) => {
            lemma_eval_lowered_either_case(units, ts, 0);
        },
        Err(_) => {},
    }
}

/// On tokens with lowered units, both case rules add up alike.
proof fn lemma_eval_lowered_either_case(
    units: Map<Seq<char>, nat>,
    toks: Seq<TokenModel>,
    acc: nat,
)
    ensures
        eval_from(units, true, toks.map_values(|t: TokenModel| lower_token(t)), acc) == eval_from(
            units,
            false,
            toks.map_values(|t: TokenModel| lower_token(t)),
            acc,
        ),
    decreases toks.len(),
{
    let lt = toks.map_values(|t: TokenModel| lower_token(t));
    if toks.len() >= 2 {
        if let TokenModel::Unit(u) = toks[1] {
            lemma_lower_seq_idempotent(u);
        }
        assert(lt.skip(2) =~= toks.skip(2).map_values(|t: TokenModel| lower_token(t)));
        if let TokenModel::Number(n) = toks[0] {
            if let TokenModel::Unit(u) = toks[1] {
                let key = lower_seq(u);
                lemma_eval_lowered_either_case(units, toks.skip(2), acc + units[key] * (n as nat));
            }
        }
    }
}

/// A case-sensitive parser looks a unit name up exactly as written: a
/// number spelled in decimal, then a name, parses to the number times the
/// length of the unit of that very name; or to `UnexpectedUnit` with the
/// name as written where no unit has that name; or to `DurationOverflow`.
pub proof fn law_case_sensitive_lookup(units: Map<Seq<char>, nat>, n: nat, name: Seq<char>)
    requires
        n <= u32::MAX,
        valid_unit_name(name),
    ensures
        spec_parse(units, false, decimal_spelling(n) + name) == (if !units.contains_key(name) {
            Err(ErrorModel::UnexpectedUnit(name))
        } else if units[name] * n > max_nanos() {
            Err(ErrorModel::DurationOverflow)
        } else {
            Ok::<nat, ErrorModel>(units[name] * n)
        }),
{
    law_decimal_spelling_reads_back(n);
    law_number_then_unit(units, false, decimal_spelling(n), name);
}

// ---------------------------------------------------------------------
// Separators
// ---------------------------------------------------------------------

/// The characters that separate tokens: the Unicode whitespace characters,
/// in order of code, then the comma.
pub open spec fn separator_chars() -> Seq<char> {
    "\u{9}\u{a}\u{b}\u{c}\u{d} \u{85}\u{a0}\u{1680}\u{2000}\u{2001}\u{2002}\u{2003}\u{2004}\u{2005}\u{2006}\u{2007}\u{2008}\u{2009}\u{200a}\u{2028}\u{2029}\u{202f}\u{205f}\u{3000},"@
}

/// The code of the character at place `i` of [`separator_chars`].
spec fn separator_code(i: int) -> int {
    if i <= 4 {
        9 + i
    } else if i == 5 {
        0x20
    } else if i == 6 {
        0x85
    } else if i == 7 {
        0xa0
    } else if i == 8 {
        0x1680
    } else if i <= 19 {
        0x2000 + i - 9
    } else if i == 20 {
        0x2028
    } else if i == 21 {
        0x2029
    } else if i == 22 {
        0x202f
    } else if i == 23 {
        0x205f
    } else if i == 24 {
        0x3000
    } else {
        0x2c
    }
}

proof fn lemma_separators_at(i: int)
    requires
        0 <= i < 26,
    ensures
        separator_chars().len() == 26,
        separator_chars()[i] as u32 == separator_code(i),
        is_separator(separator_chars()[i]),
{
    reveal_strlit("\u{9}\u{a}\u{b}\u{c}\u{d} \u{85}\u{a0}\u{1680}\u{2000}\u{2001}\u{2002}\u{2003}\u{2004}\u{2005}\u{2006}\u{2007}\u{2008}\u{2009}\u{200a}\u{2028}\u{2029}\u{202f}\u{205f}\u{3000},");
    let t = separator_chars();
    if i == 0 {
        assert(t[0] == '\u{9}');
    } else if i == 1 {
        assert(t[1] == '\u{a}');
    } else if i == 2 {
        assert(t[2] == '\u{b}');
    } else if i == 3 {
        assert(t[3] == '\u{c}');
    } else if i == 4 {
        assert(t[4] == '\u{d}');
    } else if i == 5 {
        assert(t[5] == ' ');
    } else if i == 6 {
        assert(t[6] == '\u{85}');
    } else if i == 7 {
        assert(t[7] == '\u{a0}');
    } else if i == 8 {
        assert(t[8] == '\u{1680}');
    } else if i == 9 {
        assert(t[9] == '\u{2000}');
    } else if i == 10 {
        assert(t[10] == '\u{2001}');
    } else if i == 11 {
        assert(t[11] == '\u{2002}');
    } else if i == 12 {
        assert(t[12] == '\u{2003}');
    } else if i == 13 {
        assert(t[13] == '\u{2004}');
    } else if i == 14 {
        assert(t[14] == '\u{2005}');
    } else if i == 15 {
        assert(t[15] == '\u{2006}');
    } else if i == 16 {
        assert(t[16] == '\u{2007}');
    } else if i == 17 {
        assert(t[17] == '\u{2008}');
    } else if i == 18 {
        assert(t[18] == '\u{2009}');
    } else if i == 19 {
        assert(t[19] == '\u{200a}');
    } else if i == 20 {
        assert(t[20] == '\u{2028}');
    } else if i == 21 {
        assert(t[21] == '\u{2029}');
    } else if i == 22 {
        assert(t[22] == '\u{202f}');
    } else if i == 23 {
        assert(t[23] == '\u{205f}');
    } else if i == 24 {
        assert(t[24] == '\u{3000}');
    } else if i == 25 {
        assert(t[25] == ',');
    }
}

/// A character separates tokens exactly when it is one of
/// [`separator_chars`]: Unicode whitespace or a comma.
pub proof fn law_separators(c: char)
    ensures
        is_separator(c) <==> separator_chars().contains(c),
{
    lemma_separators_at(0);
    let t = separator_chars();
    if is_separator(c) {
        let code = c as u32;
        let k: int = if code <= 13 {
            code - 9
        } else if code == 0x20 {
            5
        } else if code == 0x2c {
            25
        } else if code == 0x85 {
            6
        } else if code == 0xa0 {
            7
        } else if code == 0x1680 {
            8
        } else if code <= 0x200a {
            code - 0x2000 + 9
        } else if code == 0x2028 {
            20
        } else if code == 0x2029 {
            21
        } else if code == 0x202f {
            22
        } else if code == 0x205f {
            23
        } else if code == 0x3000 {
            24
        } else {
            25
        };
        lemma_separators_at(k);
        lemma_same_code(t[k], c);
    }
    if t.contains(c) {
        let i = choose|i: int| 0 <= i < t.len() && t[i] == c;
        lemma_separators_at(i);
    }
}

/// Lowering a string lowers each of its characters in place.
pub proof fn law_lower_seq(s: Seq<char>)
    ensures
        lower_seq(s).len() == s.len(),
        forall|k: int| 0 <= k < s.len() ==> #[trigger] lower_seq(s)[k] == lower(s[k]),
{
}

/// With the built-in units, a number no greater than `u32::MAX`, spelled in
/// decimal and followed by `s`, parses to that many seconds.
pub proof fn law_seconds(n: nat)
    requires
        n <= u32::MAX,
    ensures
        spec_parse(default_units(), false, decimal_spelling(n) + "s"@) == Ok::<nat, ErrorModel>(
            n * 1_000_000_000,
        ),
{
    reveal_strlit("s");
    reveal_strlit("sec");
    reveal_strlit("secs");
    reveal_strlit("second");
    reveal_strlit("seconds");
    reveal_strlit("ms");
    reveal_strlit("msec");
    reveal_strlit("msecs");
    reveal_strlit("millisecond");
    reveal_strlit("milliseconds");
    let units = default_units();
    assert(units.contains_key("s"@));
    assert(units["s"@] == 1_000_000_000);
    assert(valid_unit_name("s"@));
    assert(n * 1_000_000_000 <= 4_294_967_295 * 1_000_000_000) by (nonlinear_arith)
        requires
            n <= u32::MAX,
    ;
    assert(1_000_000_000 * n == n * 1_000_000_000) by (nonlinear_arith);
    law_case_sensitive_lookup(units, n, "s"@);
}

} // verus!
