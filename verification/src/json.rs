//! A small verified JSON scanner and the text primitives the wire envelope
//! needs: whitespace skipping, unsigned-integer reading and printing, string
//! body reading with escapes, and a validating scan that finds the end of an
//! arbitrary JSON value without building it.

use vstd::prelude::*;

verus! {

// ---------------------------------------------------------------------------
// Character classes
// ---------------------------------------------------------------------------

/// JSON insignificant whitespace.
pub open spec fn is_ws(c: char) -> bool {
    c == ' ' || c == '\n' || c == '\t' || c == '\r'
}

/// Decimal digit.
pub open spec fn is_digit(c: char) -> bool {
    48 <= c as u32 && c as u32 <= 57
}

/// Value of a decimal digit.
pub open spec fn digit_val(c: char) -> nat
    recommends
        is_digit(c),
{
    (c as u32 - 48) as nat
}

/// Hexadecimal digit value, if `c` is one.
pub open spec fn hex_val(c: char) -> Option<nat> {
    let u = c as u32;
    if 48 <= u && u <= 57 {
        Some((u - 48) as nat)
    } else if 97 <= u && u <= 102 {
        Some((u - 87) as nat)
    } else if 65 <= u && u <= 70 {
        Some((u - 55) as nat)
    } else {
        None
    }
}

// ---------------------------------------------------------------------------
// Whitespace skipping
// ---------------------------------------------------------------------------

/// First position at or after `pos` holding a non-whitespace character.
pub open spec fn skip_ws(s: Seq<char>, pos: int) -> int
    decreases s.len() - pos,
    when 0 <= pos <= s.len()
{
    if pos < s.len() && is_ws(s[pos]) {
        skip_ws(s, pos + 1)
    } else {
        pos
    }
}

pub proof fn lemma_skip_ws(s: Seq<char>, pos: int)
    requires
        0 <= pos <= s.len(),
    ensures
        pos <= skip_ws(s, pos) <= s.len(),
        forall|i: int| pos <= i < skip_ws(s, pos) ==> is_ws(s[i]),
        skip_ws(s, pos) == s.len() || !is_ws(s[skip_ws(s, pos)]),
    decreases s.len() - pos,
{
    if pos < s.len() && is_ws(s[pos]) {
        lemma_skip_ws(s, pos + 1);
    }
}

/// Skipping whitespace from a position that already holds none is a no-op.
pub proof fn lemma_skip_ws_none(s: Seq<char>, pos: int)
    requires
        0 <= pos <= s.len(),
        pos == s.len() || !is_ws(s[pos]),
    ensures
        skip_ws(s, pos) == pos,
{
}

// ---------------------------------------------------------------------------
// Validating scan over one JSON value
// ---------------------------------------------------------------------------

/// Nesting context: inside an object or inside an array.
#[derive(PartialEq, Eq, Structural, Clone, Copy, Debug)]
pub enum Ctx {
    Obj,
    Arr,
}

/// Scanner mode. `Str`, `Esc` and `Hex` carry `true` when the string being
/// read is an object key; `Hex` also counts the escape digits read so far.
/// `Lit` indexes into the remainders of `true`, `false` and `null`.
#[derive(PartialEq, Eq, Structural, Clone, Copy, Debug)]
pub enum Mode {
    /// Expecting the start of a value.
    Val,
    /// Just after `[`: a value or an immediate `]`.
    ArrStart,
    /// Just after `{`: a key or an immediate `}`.
    ObjStart,
    /// Just after `,` inside an object: a key.
    ObjComma,
    /// Just after a key string: expecting `:`.
    Colon,
    /// A value has just ended at the current nesting level.
    End,
    Str(bool),
    Esc(bool),
    Hex(bool, u8),
    NumSign,
    NumZero,
    NumInt,
    NumDot,
    NumFrac,
    NumE,
    NumESign,
    NumExp,
    Lit(u8),
}

/// Expected character at position `k` of a literal remainder.
pub open spec fn lit_char(k: u8) -> char {
    if k == 0 {
        'r'
    } else if k == 1 {
        'u'
    } else if k == 2 {
        'e'
    } else if k == 3 {
        'a'
    } else if k == 4 {
        'l'
    } else if k == 5 {
        's'
    } else if k == 6 {
        'e'
    } else if k == 7 {
        'u'
    } else if k == 8 {
        'l'
    } else {
        'l'
    }
}

/// Whether the literal remainder is finished after matching position `k`.
pub open spec fn lit_last(k: u8) -> bool {
    k == 2 || k == 6 || k == 9
}

/// The scanner modes in which a number is already complete.
pub open spec fn num_done(m: Mode) -> bool {
    m == Mode::NumZero || m == Mode::NumInt || m == Mode::NumFrac || m == Mode::NumExp
}

/// Whether `c` extends a number that is complete in mode `m`.
pub open spec fn num_cont_char(m: Mode, c: char) -> bool {
    if m == Mode::NumZero {
        c == '.' || c == 'e' || c == 'E'
    } else if m == Mode::NumInt {
        is_digit(c) || c == '.' || c == 'e' || c == 'E'
    } else if m == Mode::NumFrac {
        is_digit(c) || c == 'e' || c == 'E'
    } else {
        is_digit(c)
    }
}

/// Transition for the first character of a value.
pub open spec fn start_val(st: Seq<Ctx>, c: char) -> Option<(Mode, Seq<Ctx>)> {
    if c == '{' {
        Some((Mode::ObjStart, st.push(Ctx::Obj)))
    } else if c == '[' {
        Some((Mode::ArrStart, st.push(Ctx::Arr)))
    } else if c == '"' {
        Some((Mode::Str(false), st))
    } else if c == '-' {
        Some((Mode::NumSign, st))
    } else if c == '0' {
        Some((Mode::NumZero, st))
    } else if is_digit(c) {
        Some((Mode::NumInt, st))
    } else if c == 't' {
        Some((Mode::Lit(0), st))
    } else if c == 'f' {
        Some((Mode::Lit(3), st))
    } else if c == 'n' {
        Some((Mode::Lit(7), st))
    } else {
        None
    }
}

/// Transition taken right after a value has ended, on character `c`.
pub open spec fn step_end(st: Seq<Ctx>, c: char) -> Option<(Mode, Seq<Ctx>)> {
    if is_ws(c) {
        Some((Mode::End, st))
    } else if st.len() == 0 {
        None
    } else if c == ',' {
        if st.last() == Ctx::Obj {
            Some((Mode::ObjComma, st))
        } else {
            Some((Mode::Val, st))
        }
    } else if c == '}' && st.last() == Ctx::Obj {
        Some((Mode::End, st.drop_last()))
    } else if c == ']' && st.last() == Ctx::Arr {
        Some((Mode::End, st.drop_last()))
    } else {
        None
    }
}

/// One step of the validating scan.
pub open spec fn scan_step(m: Mode, st: Seq<Ctx>, c: char) -> Option<(Mode, Seq<Ctx>)> {
    match m {
        Mode::Val => if is_ws(c) {
            Some((Mode::Val, st))
        } else {
            start_val(st, c)
        },
        Mode::ArrStart => if is_ws(c) {
            Some((Mode::ArrStart, st))
        } else if c == ']' && st.len() > 0 && st.last() == Ctx::Arr {
            Some((Mode::End, st.drop_last()))
        } else {
            start_val(st, c)
        },
        Mode::ObjStart => if is_ws(c) {
            Some((Mode::ObjStart, st))
        } else if c == '}' && st.len() > 0 && st.last() == Ctx::Obj {
            Some((Mode::End, st.drop_last()))
        } else if c == '"' {
            Some((Mode::Str(true), st))
        } else {
            None
        },
        Mode::ObjComma => if is_ws(c) {
            Some((Mode::ObjComma, st))
        } else if c == '"' {
            Some((Mode::Str(true), st))
        } else {
            None
        },
        Mode::Colon => if is_ws(c) {
            Some((Mode::Colon, st))
        } else if c == ':' {
            Some((Mode::Val, st))
        } else {
            None
        },
        Mode::End => step_end(st, c),
        Mode::Str(k) => if c == '"' {
            if k {
                Some((Mode::Colon, st))
            } else {
                Some((Mode::End, st))
            }
        } else if c == '\\' {
            Some((Mode::Esc(k), st))
        } else if c as u32 >= 0x20 {
            Some((Mode::Str(k), st))
        } else {
            None
        },
        Mode::Esc(k) => if c == '"' || c == '\\' || c == '/' || c == 'b' || c == 'f' || c == 'n'
            || c == 'r' || c == 't' {
            Some((Mode::Str(k), st))
        } else if c == 'u' {
            Some((Mode::Hex(k, 0), st))
        } else {
            None
        },
        Mode::Hex(k, n) => if hex_val(c) is Some {
            if n >= 3 {
                Some((Mode::Str(k), st))
            } else {
                Some((Mode::Hex(k, (n + 1) as u8), st))
            }
        } else {
            None
        },
        Mode::NumSign => if c == '0' {
            Some((Mode::NumZero, st))
        } else if is_digit(c) {
            Some((Mode::NumInt, st))
        } else {
            None
        },
        Mode::NumZero => if c == '.' {
            Some((Mode::NumDot, st))
        } else if c == 'e' || c == 'E' {
            Some((Mode::NumE, st))
        } else {
            step_end(st, c)
        },
        Mode::NumInt => if is_digit(c) {
            Some((Mode::NumInt, st))
        } else if c == '.' {
            Some((Mode::NumDot, st))
        } else if c == 'e' || c == 'E' {
            Some((Mode::NumE, st))
        } else {
            step_end(st, c)
        },
        Mode::NumDot => if is_digit(c) {
            Some((Mode::NumFrac, st))
        } else {
            None
        },
        Mode::NumFrac => if is_digit(c) {
            Some((Mode::NumFrac, st))
        } else if c == 'e' || c == 'E' {
            Some((Mode::NumE, st))
        } else {
            step_end(st, c)
        },
        Mode::NumE => if is_digit(c) {
            Some((Mode::NumExp, st))
        } else if c == '+' || c == '-' {
            Some((Mode::NumESign, st))
        } else {
            None
        },
        Mode::NumESign => if is_digit(c) {
            Some((Mode::NumExp, st))
        } else {
            None
        },
        Mode::NumExp => if is_digit(c) {
            Some((Mode::NumExp, st))
        } else {
            step_end(st, c)
        },
        Mode::Lit(j) => if j > 9 {
            None
        } else if c == lit_char(j) {
            if lit_last(j) {
                Some((Mode::End, st))
            } else {
                Some((Mode::Lit((j + 1) as u8), st))
            }
        } else {
            None
        },
    }
}

/// Whether the scan is complete: the top-level value has fully ended, or a
/// top-level number has ended and the next character cannot extend it.
pub open spec fn scan_done(s: Seq<char>, pos: int, m: Mode, st: Seq<Ctx>) -> bool {
    st.len() == 0 && (m == Mode::End || (num_done(m) && (pos >= s.len() || !num_cont_char(
        m,
        s[pos],
    ))))
}

/// Runs the scan from `pos` in mode `m` with context stack `st`; returns the
/// position just after the scanned value, or `None` if the text is not a
/// well-formed value.
pub open spec fn scan_from(s: Seq<char>, pos: int, m: Mode, st: Seq<Ctx>) -> Option<int>
    decreases s.len() - pos,
    when 0 <= pos <= s.len()
{
    if scan_done(s, pos, m, st) {
        Some(pos)
    } else if pos >= s.len() {
        None
    } else {
        match scan_step(m, st, s[pos]) {
            Option::Some(next) => scan_from(s, pos + 1, next.0, next.1),
            Option::None => None,
        }
    }
}

/// Position just after the JSON value starting at `pos`, if any.
pub open spec fn scan_value(s: Seq<char>, pos: int) -> Option<int> {
    scan_from(s, pos, Mode::Val, Seq::empty())
}

/// A sequence is exactly one JSON value, with nothing before or after it.
pub open spec fn valid_json_value(s: Seq<char>) -> bool {
    scan_value(s, 0) == Some(s.len() as int)
}

/// Executable counterpart of `hex_val`.
pub fn hex_val_exec(c: char) -> (r: Option<u8>)
    ensures
        r is Some <==> hex_val(c) is Some,
        r is Some ==> r.unwrap() as nat == hex_val(c).unwrap(),
{
    let u = c as u32;
    if 48 <= u && u <= 57 {
        Some((u - 48) as u8)
    } else if 97 <= u && u <= 102 {
        Some((u - 87) as u8)
    } else if 65 <= u && u <= 70 {
        Some((u - 55) as u8)
    } else {
        None
    }
}

/// Executable counterpart of `is_ws`.
pub fn is_ws_exec(c: char) -> (r: bool)
    ensures
        r == is_ws(c),
{
    c == ' ' || c == '\n' || c == '\t' || c == '\r'
}

/// Executable counterpart of `is_digit`.
pub fn is_digit_exec(c: char) -> (r: bool)
    ensures
        r == is_digit(c),
{
    let u = c as u32;
    48 <= u && u <= 57
}

/// Executable `start_val`, acting on a `Vec` stack.
fn start_val_exec(st: &mut Vec<Ctx>, c: char) -> (r: Option<Mode>)
    ensures
        match start_val(old(st)@, c) {
            Option::Some(next) => r == Some(next.0) && final(st)@ == next.1,
            Option::None => r is None,
        },
{
    if c == '{' {
        st.push(Ctx::Obj);
        Some(Mode::ObjStart)
    } else if c == '[' {
        st.push(Ctx::Arr);
        Some(Mode::ArrStart)
    } else if c == '"' {
        Some(Mode::Str(false))
    } else if c == '-' {
        Some(Mode::NumSign)
    } else if c == '0' {
        Some(Mode::NumZero)
    } else if is_digit_exec(c) {
        Some(Mode::NumInt)
    } else if c == 't' {
        Some(Mode::Lit(0))
    } else if c == 'f' {
        Some(Mode::Lit(3))
    } else if c == 'n' {
        Some(Mode::Lit(7))
    } else {
        None
    }
}

/// Executable `step_end`, acting on a `Vec` stack.
fn step_end_exec(st: &mut Vec<Ctx>, c: char) -> (r: Option<Mode>)
    ensures
        match step_end(old(st)@, c) {
            Option::Some(next) => r == Some(next.0) && final(st)@ == next.1,
            Option::None => r is None,
        },
{
    if is_ws_exec(c) {
        Some(Mode::End)
    } else if st.len() == 0 {
        None
    } else if c == ',' {
        if st[st.len() - 1] == Ctx::Obj {
            Some(Mode::ObjComma)
        } else {
            Some(Mode::Val)
        }
    } else if c == '}' && st[st.len() - 1] == Ctx::Obj {
        st.pop();
        Some(Mode::End)
    } else if c == ']' && st[st.len() - 1] == Ctx::Arr {
        st.pop();
        Some(Mode::End)
    } else {
        None
    }
}

/// Executable `scan_step`, acting on a `Vec` stack.
fn scan_step_exec(m: Mode, st: &mut Vec<Ctx>, c: char) -> (r: Option<Mode>)
    ensures
        match scan_step(m, old(st)@, c) {
            Option::Some(next) => r == Some(next.0) && final(st)@ == next.1,
            Option::None => r is None,
        },
{
    match m {
        Mode::Val => if is_ws_exec(c) {
            Some(Mode::Val)
        } else {
            start_val_exec(st, c)
        },
        Mode::ArrStart => if is_ws_exec(c) {
            Some(Mode::ArrStart)
        } else if c == ']' && st.len() > 0 && st[st.len() - 1] == Ctx::Arr {
            st.pop();
            Some(Mode::End)
        } else {
            start_val_exec(st, c)
        },
        Mode::ObjStart => if is_ws_exec(c) {
            Some(Mode::ObjStart)
        } else if c == '}' && st.len() > 0 && st[st.len() - 1] == Ctx::Obj {
            st.pop();
            Some(Mode::End)
        } else if c == '"' {
            Some(Mode::Str(true))
        } else {
            None
        },
        Mode::ObjComma => if is_ws_exec(c) {
            Some(Mode::ObjComma)
        } else if c == '"' {
            Some(Mode::Str(true))
        } else {
            None
        },
        Mode::Colon => if is_ws_exec(c) {
            Some(Mode::Colon)
        } else if c == ':' {
            Some(Mode::Val)
        } else {
            None
        },
        Mode::End => step_end_exec(st, c),
        Mode::Str(k) => if c == '"' {
            if k {
                Some(Mode::Colon)
            } else {
                Some(Mode::End)
            }
        } else if c == '\\' {
            Some(Mode::Esc(k))
        } else if c as u32 >= 0x20 {
            Some(Mode::Str(k))
        } else {
            None
        },
        Mode::Esc(k) => if c == '"' || c == '\\' || c == '/' || c == 'b' || c == 'f' || c == 'n'
            || c == 'r' || c == 't' {
            Some(Mode::Str(k))
        } else if c == 'u' {
            Some(Mode::Hex(k, 0))
        } else {
            None
        },
        Mode::Hex(k, n) => if hex_val_exec(c).is_some() {
            if n >= 3 {
                Some(Mode::Str(k))
            } else {
                Some(Mode::Hex(k, n + 1))
            }
        } else {
            None
        },
        Mode::NumSign => if c == '0' {
            Some(Mode::NumZero)
        } else if is_digit_exec(c) {
            Some(Mode::NumInt)
        } else {
            None
        },
        Mode::NumZero => if c == '.' {
            Some(Mode::NumDot)
        } else if c == 'e' || c == 'E' {
            Some(Mode::NumE)
        } else {
            step_end_exec(st, c)
        },
        Mode::NumInt => if is_digit_exec(c) {
            Some(Mode::NumInt)
        } else if c == '.' {
            Some(Mode::NumDot)
        } else if c == 'e' || c == 'E' {
            Some(Mode::NumE)
        } else {
            step_end_exec(st, c)
        },
        Mode::NumDot => if is_digit_exec(c) {
            Some(Mode::NumFrac)
        } else {
            None
        },
        Mode::NumFrac => if is_digit_exec(c) {
            Some(Mode::NumFrac)
        } else if c == 'e' || c == 'E' {
            Some(Mode::NumE)
        } else {
            step_end_exec(st, c)
        },
        Mode::NumE => if is_digit_exec(c) {
            Some(Mode::NumExp)
        } else if c == '+' || c == '-' {
            Some(Mode::NumESign)
        } else {
            None
        },
        Mode::NumESign => if is_digit_exec(c) {
            Some(Mode::NumExp)
        } else {
            None
        },
        Mode::NumExp => if is_digit_exec(c) {
            Some(Mode::NumExp)
        } else {
            step_end_exec(st, c)
        },
        Mode::Lit(j) => {
            if j > 9 {
                return None;
            }
            let expect: char = if j == 0 {
                'r'
            } else if j == 1 {
                'u'
            } else if j == 2 {
                'e'
            } else if j == 3 {
                'a'
            } else if j == 4 {
                'l'
            } else if j == 5 {
                's'
            } else if j == 6 {
                'e'
            } else if j == 7 {
                'u'
            } else if j == 8 {
                'l'
            } else {
                'l'
            };
            if c == expect {
                if j == 2 || j == 6 || j == 9 {
                    Some(Mode::End)
                } else {
                    Some(Mode::Lit(j + 1))
                }
            } else {
                None
            }
        },
    }
}

/// Executable scan: finds the end of the JSON value starting at `start`.
pub fn scan_value_exec(s: &Vec<char>, start: usize) -> (r: Option<usize>)
    requires
        start <= s@.len(),
    ensures
        match r {
            Option::Some(p) => scan_value(s@, start as int) == Some(p as int) && start <= p
                <= s@.len(),
            Option::None => scan_value(s@, start as int) is None,
        },
{
    let mut pos: usize = start;
    let mut m: Mode = Mode::Val;
    let mut st: Vec<Ctx> = Vec::new();
    proof {
        assert(st@ =~= Seq::<Ctx>::empty());
    }
    loop
        invariant
            start <= pos <= s@.len(),
            scan_from(s@, start as int, Mode::Val, Seq::empty()) == scan_from(
                s@,
                pos as int,
                m,
                st@,
            ),
        decreases s@.len() - pos,
    {
        let done: bool = st.len() == 0 && (m == Mode::End || ((m == Mode::NumZero || m
            == Mode::NumInt || m == Mode::NumFrac || m == Mode::NumExp) && (pos >= s.len() || {
            let c = s[pos];
            !(if m == Mode::NumZero {
                c == '.' || c == 'e' || c == 'E'
            } else if m == Mode::NumInt {
                is_digit_exec(c) || c == '.' || c == 'e' || c == 'E'
            } else if m == Mode::NumFrac {
                is_digit_exec(c) || c == 'e' || c == 'E'
            } else {
                is_digit_exec(c)
            })
        })));
        if done {
            assert(scan_done(s@, pos as int, m, st@));
            return Some(pos);
        }
        assert(!scan_done(s@, pos as int, m, st@));
        if pos >= s.len() {
            return None;
        }
        let c = s[pos];
        match scan_step_exec(m, &mut st, c) {
            Option::Some(m2) => {
                m = m2;
                pos = pos + 1;
            },
            Option::None => {
                return None;
            },
        }
    }
}

pub proof fn lemma_scan_bounds(s: Seq<char>, pos: int, m: Mode, st: Seq<Ctx>)
    requires
        0 <= pos <= s.len(),
        scan_from(s, pos, m, st) is Some,
    ensures
        pos <= scan_from(s, pos, m, st).unwrap() <= s.len(),
    decreases s.len() - pos,
{
    if scan_done(s, pos, m, st) {
    } else if pos < s.len() {
        if let Option::Some(next) = scan_step(m, st, s[pos]) {
            lemma_scan_bounds(s, pos + 1, next.0, next.1);
        }
    }
}

// ---------------------------------------------------------------------------
// Unsigned integers
// ---------------------------------------------------------------------------

/// First position at or after `pos` holding a non-digit.
pub open spec fn scan_digits(s: Seq<char>, pos: int) -> int
    decreases s.len() - pos,
    when 0 <= pos <= s.len()
{
    if pos < s.len() && is_digit(s[pos]) {
        scan_digits(s, pos + 1)
    } else {
        pos
    }
}

pub proof fn lemma_scan_digits(s: Seq<char>, pos: int)
    requires
        0 <= pos <= s.len(),
    ensures
        pos <= scan_digits(s, pos) <= s.len(),
        forall|i: int| pos <= i < scan_digits(s, pos) ==> is_digit(s[i]),
        scan_digits(s, pos) == s.len() || !is_digit(s[scan_digits(s, pos)]),
    decreases s.len() - pos,
{
    if pos < s.len() && is_digit(s[pos]) {
        lemma_scan_digits(s, pos + 1);
    }
}

/// Value of the digit run `s[pos..end]`.
pub open spec fn digits_val(s: Seq<char>, pos: int, end: int) -> nat
    decreases end - pos,
    when pos <= end
{
    if pos >= end {
        0
    } else {
        digits_val(s, pos, end - 1) * 10 + digit_val(s[end - 1])
    }
}

/// The value of a digit run only grows as the run extends.
pub proof fn lemma_digits_val_mono(s: Seq<char>, pos: int, mid: int, end: int)
    requires
        pos <= mid <= end,
    ensures
        digits_val(s, pos, mid) <= digits_val(s, pos, end),
    decreases end - mid,
{
    if mid < end {
        lemma_digits_val_mono(s, pos, mid, end - 1);
        assert(digits_val(s, pos, end) == digits_val(s, pos, end - 1) * 10 + digit_val(
            s[end - 1],
        ));
        assert(digits_val(s, pos, end - 1) <= digits_val(s, pos, end - 1) * 10) by (nonlinear_arith);
    }
}

/// Reads an unsigned decimal integer at `pos`: at least one digit, no
/// superfluous leading zero. Returns the value and the position after it.
pub open spec fn parse_uint(s: Seq<char>, pos: int) -> Option<(nat, int)> {
    let end = scan_digits(s, pos);
    if end == pos {
        None
    } else if s[pos] == '0' && end > pos + 1 {
        None
    } else {
        Some((digits_val(s, pos, end), end))
    }
}

/// Executable `parse_uint`. `None` also covers a value beyond `usize`,
/// on which decoding fails as a whole.
pub fn parse_uint_exec(s: &Vec<char>, pos: usize) -> (r: Option<(usize, usize)>)
    requires
        pos <= s@.len(),
    ensures
        match r {
            Option::Some(ve) => parse_uint(s@, pos as int) == Some(
                (ve.0 as nat, ve.1 as int),
            ) && pos <= ve.1 <= s@.len(),
            Option::None => parse_uint(s@, pos as int) is None || parse_uint(
                s@,
                pos as int,
            ).unwrap().0 > usize::MAX,
        },
{
    proof {
        lemma_scan_digits(s@, pos as int);
    }
    // find the end of the digit run
    let mut end: usize = pos;
    while end < s.len() && is_digit_exec(s[end])
        invariant
            pos <= end <= s@.len(),
            scan_digits(s@, pos as int) == scan_digits(s@, end as int),
        decreases s@.len() - end,
    {
        end = end + 1;
    }
    assert(scan_digits(s@, end as int) == end);
    if end == pos {
        return None;
    }
    if s[pos] == '0' && end > pos + 1 {
        return None;
    }
    let mut val: usize = 0;
    let mut i: usize = pos;
    while i < end
        invariant
            pos <= i <= end <= s@.len(),
            end == scan_digits(s@, pos as int),
            forall|j: int| pos <= j < end ==> is_digit(s@[j]),
            val as nat == digits_val(s@, pos as int, i as int),
        decreases end - i,
    {
        let d = (s[i] as u32 - 48) as usize;
        let next = match val.checked_mul(10) {
            Option::Some(m) => m.checked_add(d),
            Option::None => None,
        };
        match next {
            Option::Some(n) => {
                val = n;
                i = i + 1;
            },
            Option::None => {
                proof {
                    lemma_digits_val_mono(s@, pos as int, i as int + 1, end as int);
                    assert(digits_val(s@, pos as int, i as int + 1) == digits_val(
                        s@,
                        pos as int,
                        i as int,
                    ) * 10 + digit_val(s@[i as int]));
                }
                return None;
            },
        }
    }
    Some((val, end))
}

/// Digit character for `d < 10`.
pub open spec fn digit_char(d: nat) -> char
    recommends
        d < 10,
{
    ((d + 48) as u8) as char
}

/// Lower-case hexadecimal digit character for `d < 16`.
pub open spec fn hex_char(d: nat) -> char
    recommends
        d < 16,
{
    if d < 10 {
        digit_char(d)
    } else {
        ((d + 87) as u8) as char
    }
}

/// Decimal text of `n`, most significant digit first.
pub open spec fn uint_chars(n: nat) -> Seq<char>
    decreases n,
{
    if n < 10 {
        seq![digit_char(n)]
    } else {
        uint_chars(n / 10).push(digit_char(n % 10))
    }
}

/// Appends the decimal text of `n` to `v`.
pub fn push_uint(v: &mut Vec<char>, n: usize)
    ensures
        final(v)@ == old(v)@ + uint_chars(n as nat),
    decreases n,
{
    if n < 10 {
        v.push(((n as u8) + 48) as char);
        assert(final(v)@ =~= old(v)@ + uint_chars(n as nat));
    } else {
        push_uint(v, n / 10);
        v.push((((n % 10) as u8) + 48) as char);
        assert(final(v)@ =~= old(v)@ + uint_chars(n as nat));
    }
}

// ---------------------------------------------------------------------------
// String bodies
// ---------------------------------------------------------------------------

/// Replacement character for a single-character escape, if recognized.
pub open spec fn unesc(e: char) -> Option<char> {
    if e == '"' {
        Some('"')
    } else if e == '\\' {
        Some('\\')
    } else if e == '/' {
        Some('/')
    } else if e == 'b' {
        Some('\u{08}')
    } else if e == 'f' {
        Some('\u{0C}')
    } else if e == 'n' {
        Some('\n')
    } else if e == 'r' {
        Some('\r')
    } else if e == 't' {
        Some('\t')
    } else {
        None
    }
}

/// Value of four hexadecimal digits at `pos`, if they are ones.
pub open spec fn hex4_val(s: Seq<char>, pos: int) -> Option<nat> {
    if 0 <= pos && pos + 4 <= s.len() {
        if hex_val(s[pos]) is Some && hex_val(s[pos + 1]) is Some && hex_val(s[pos + 2]) is Some
            && hex_val(s[pos + 3]) is Some {
            Some(
                ((hex_val(s[pos]).unwrap() * 16 + hex_val(s[pos + 1]).unwrap()) * 16 + hex_val(
                    s[pos + 2],
                ).unwrap()) * 16 + hex_val(s[pos + 3]).unwrap(),
            )
        } else {
            None
        }
    } else {
        None
    }
}

/// Reads a string body starting just after the opening quote; yields the
/// decoded characters and the position just after the closing quote.
/// Surrogate escape values are rejected.
pub open spec fn parse_str_body(s: Seq<char>, pos: int) -> Option<(Seq<char>, int)>
    decreases s.len() - pos,
    when 0 <= pos <= s.len()
{
    if pos >= s.len() {
        None
    } else {
        let c = s[pos];
        if c == '"' {
            Some((Seq::empty(), pos + 1))
        } else if c == '\\' {
            if pos + 1 < s.len() {
                let e = s[pos + 1];
                if e == 'u' {
                    if pos + 6 <= s.len() {
                        match hex4_val(s, pos + 2) {
                            Option::Some(v) => if v < 0xD800 || v >= 0xE000 {
                                match parse_str_body(s, pos + 6) {
                                    Option::Some(r) => Some(
                                        (seq![((v as u32) as char)].add(r.0), r.1),
                                    ),
                                    Option::None => None,
                                }
                            } else {
                                None
                            },
                            Option::None => None,
                        }
                    } else {
                        None
                    }
                } else {
                    match unesc(e) {
                        Option::Some(u) => match parse_str_body(s, pos + 2) {
                            Option::Some(r) => Some((seq![u].add(r.0), r.1)),
                            Option::None => None,
                        },
                        Option::None => None,
                    }
                }
            } else {
                None
            }
        } else if c as u32 >= 0x20 {
            match parse_str_body(s, pos + 1) {
                Option::Some(r) => Some((seq![c].add(r.0), r.1)),
                Option::None => None,
            }
        } else {
            None
        }
    }
}

pub proof fn lemma_parse_str_bounds(s: Seq<char>, pos: int)
    requires
        0 <= pos <= s.len(),
        parse_str_body(s, pos) is Some,
    ensures
        pos < parse_str_body(s, pos).unwrap().1 <= s.len(),
    decreases s.len() - pos,
{
    if pos < s.len() {
        let c = s[pos];
        if c == '"' {
        } else if c == '\\' && pos + 1 < s.len() {
            let e = s[pos + 1];
            if e == 'u' {
                if pos + 6 <= s.len() && hex4_val(s, pos + 2) is Some {
                    lemma_parse_str_bounds(s, pos + 6);
                }
            } else {
                if unesc(e) is Some {
                    lemma_parse_str_bounds(s, pos + 2);
                }
            }
        } else if c as u32 >= 0x20 {
            lemma_parse_str_bounds(s, pos + 1);
        }
    }
}

/// Relies on `char::from_u32`: it returns the character with scalar value
/// `v` exactly when `v` is a valid scalar value (below the surrogate range
/// or between it and the highest code point), and `None` otherwise.
#[verifier::external_body]
fn char_from_u32(v: u32) -> (r: Option<char>)
    ensures
        (r is Some) <==> (v < 0xD800 || (0xE000 <= v && v <= 0x10FFFF)),
        r is Some ==> r.unwrap() as u32 == v && r.unwrap() == ((v as u32) as char),
{
    char::from_u32(v)
}

/// Executable `parse_str_body`, accumulating the decoded characters.
pub fn parse_str_body_exec(s: &Vec<char>, start: usize) -> (r: Option<(Vec<char>, usize)>)
    requires
        start <= s@.len(),
    ensures
        match r {
            Option::Some(p) => parse_str_body(s@, start as int) == Some((p.0@, p.1 as int))
                && start < p.1 <= s@.len(),
            Option::None => parse_str_body(s@, start as int) is None,
        },
{
    let mut acc: Vec<char> = Vec::new();
    let mut pos: usize = start;
    loop
        invariant
            start <= pos <= s@.len(),
            parse_str_body(s@, start as int) == (match parse_str_body(s@, pos as int) {
                Option::Some(r) => Some((acc@ + r.0, r.1)),
                Option::None => None::<(Seq<char>, int)>,
            }),
        decreases s@.len() - pos,
    {
        if pos >= s.len() {
            return None;
        }
        let c = s[pos];
        if c == '"' {
            proof {
                assert(parse_str_body(s@, pos as int) == Some(
                    (Seq::<char>::empty(), pos + 1 as int),
                ));
                assert(acc@ + Seq::<char>::empty() =~= acc@);
            }
            return Some((acc, pos + 1));
        } else if c == '\\' {
            if pos + 1 >= s.len() {
                return None;
            }
            let e = s[pos + 1];
            if e == 'u' {
                if s.len() - pos < 6 {
                    return None;
                }
                let h0 = hex_val_exec(s[pos + 2]);
                let h1 = hex_val_exec(s[pos + 3]);
                let h2 = hex_val_exec(s[pos + 4]);
                let h3 = hex_val_exec(s[pos + 5]);
                match (h0, h1, h2, h3) {
                    (
                        Option::Some(a),
                        Option::Some(b),
                        Option::Some(c2),
                        Option::Some(d),
                    ) => {
                        let v: u32 = ((a as u32 * 16 + b as u32) * 16 + c2 as u32) * 16
                            + d as u32;
                        assert(hex4_val(s@, pos + 2 as int) == Some(v as nat));
                        match char_from_u32(v) {
                            Option::Some(ch) => {
                                if v >= 0xD800 && v < 0xE000 {
                                    return None;
                                }
                                let ghost acc0 = acc@;
                                acc.push(ch);
                                proof {
                                    if parse_str_body(s@, pos + 6 as int) is Some {
                                        let r = parse_str_body(s@, pos + 6 as int).unwrap();
                                        assert(acc@ + r.0 =~= acc0 + (seq![ch].add(r.0)));
                                    }
                                }
                                pos = pos + 6;
                            },
                            Option::None => {
                                return None;
                            },
                        }
                    },
                    _ => {
                        return None;
                    },
                }
            } else {
                let u: Option<char> = if e == '"' {
                    Some('"')
                } else if e == '\\' {
                    Some('\\')
                } else if e == '/' {
                    Some('/')
                } else if e == 'b' {
                    Some('\u{08}')
                } else if e == 'f' {
                    Some('\u{0C}')
                } else if e == 'n' {
                    Some('\n')
                } else if e == 'r' {
                    Some('\r')
                } else if e == 't' {
                    Some('\t')
                } else {
                    None
                };
                match u {
                    Option::Some(uc) => {
                        assert(unesc(e) == Some(uc));
                        let ghost acc0 = acc@;
                        acc.push(uc);
                        proof {
                            if parse_str_body(s@, pos + 2 as int) is Some {
                                let r = parse_str_body(s@, pos + 2 as int).unwrap();
                                assert(acc@ + r.0 =~= acc0 + (seq![uc].add(r.0)));
                            }
                        }
                        pos = pos + 2;
                    },
                    Option::None => {
                        return None;
                    },
                }
            }
        } else if c as u32 >= 0x20 {
            let ghost acc0 = acc@;
            acc.push(c);
            proof {
                if parse_str_body(s@, pos + 1 as int) is Some {
                    let r = parse_str_body(s@, pos + 1 as int).unwrap();
                    assert(acc@ + r.0 =~= acc0 + (seq![c].add(r.0)));
                }
            }
            pos = pos + 1;
        } else {
            return None;
        }
    }
}

// ---------------------------------------------------------------------------
// String escaping (printing side)
// ---------------------------------------------------------------------------

/// Escaped form of one character inside a JSON string literal.
pub open spec fn esc_char(c: char) -> Seq<char> {
    if c == '"' {
        seq!['\\', '"']
    } else if c == '\\' {
        seq!['\\', '\\']
    } else if c == '\n' {
        seq!['\\', 'n']
    } else if c == '\r' {
        seq!['\\', 'r']
    } else if c == '\t' {
        seq!['\\', 't']
    } else if c == '\u{08}' {
        seq!['\\', 'b']
    } else if c == '\u{0C}' {
        seq!['\\', 'f']
    } else if (c as u32) < 0x20 {
        seq!['\\', 'u', '0', '0', hex_char((c as u32 / 16) as nat), hex_char((c as u32 % 16) as nat)]
    } else {
        seq![c]
    }
}

/// Escaped form of a whole string body.
pub open spec fn esc(s: Seq<char>) -> Seq<char>
    decreases s.len(),
{
    if s.len() == 0 {
        Seq::empty()
    } else {
        esc_char(s[0]) + esc(s.drop_first())
    }
}

/// Escaping distributes over appending one character.
pub proof fn lemma_esc_snoc(s: Seq<char>, c: char)
    ensures
        esc(s.push(c)) == esc(s) + esc_char(c),
    decreases s.len(),
{
    if s.len() == 0 {
        reveal_with_fuel(esc, 3);
        assert(s.push(c)[0] == c);
        assert(s.push(c).drop_first() =~= Seq::<char>::empty());
        assert(s =~= Seq::<char>::empty());
        assert(esc(Seq::<char>::empty()) =~= Seq::<char>::empty());
        assert(esc(s.push(c)) == esc_char(c) + esc(Seq::<char>::empty()));
        assert(esc(s.push(c)) =~= esc(s) + esc_char(c));
    } else {
        assert(s.push(c).drop_first() =~= s.drop_first().push(c));
        lemma_esc_snoc(s.drop_first(), c);
        assert(s.push(c)[0] == s[0]);
        assert(esc(s.push(c)) == esc_char(s[0]) + (esc(s.drop_first()) + esc_char(c)));
        assert(esc_char(s[0]) + (esc(s.drop_first()) + esc_char(c)) =~= (esc_char(s[0]) + esc(
            s.drop_first(),
        )) + esc_char(c));
    }
}

/// Appends the escaped form of `s` to `v`.
pub fn push_escaped(v: &mut Vec<char>, s: &Vec<char>)
    ensures
        final(v)@ == old(v)@ + esc(s@),
{
    let mut i: usize = 0;
    proof {
        assert(s@.take(0) =~= Seq::<char>::empty());
        assert(old(v)@ + esc(s@.take(0)) =~= old(v)@);
    }
    while i < s.len()
        invariant
            i <= s@.len(),
            v@ == old(v)@ + esc(s@.take(i as int)),
        decreases s@.len() - i,
    {
        let c = s[i];
        let ghost before = v@;
        if c == '"' {
            v.push('\\');
            v.push('"');
        } else if c == '\\' {
            v.push('\\');
            v.push('\\');
        } else if c == '\n' {
            v.push('\\');
            v.push('n');
        } else if c == '\r' {
            v.push('\\');
            v.push('r');
        } else if c == '\t' {
            v.push('\\');
            v.push('t');
        } else if c == '\u{08}' {
            v.push('\\');
            v.push('b');
        } else if c == '\u{0C}' {
            v.push('\\');
            v.push('f');
        } else if (c as u32) < 0x20 {
            let u = c as u32;
            let d1 = u / 16;
            let d2 = u % 16;
            let c1: char = if d1 < 10 {
                ((d1 as u8) + 48) as char
            } else {
                ((d1 as u8) + 87) as char
            };
            let c2: char = if d2 < 10 {
                ((d2 as u8) + 48) as char
            } else {
                ((d2 as u8) + 87) as char
            };
            v.push('\\');
            v.push('u');
            v.push('0');
            v.push('0');
            v.push(c1);
            v.push(c2);
        } else {
            v.push(c);
        }
        proof {
            assert(v@ =~= before + esc_char(s@[i as int]));
            lemma_esc_snoc(s@.take(i as int), s@[i as int]);
            assert(s@.take(i as int + 1) =~= s@.take(i as int).push(s@[i as int]));
            assert(v@ =~= old(v)@ + esc(s@.take(i as int + 1)));
        }
        i = i + 1;
    }
    proof {
        assert(s@.take(s@.len() as int) =~= s@);
    }
}

/// The scan is local: it depends only on the characters it traverses and on
/// one delimiting character after them. If `t` carries the same characters
/// as `s` shifted by `d`, the scan result shifts with them.
pub proof fn lemma_scan_shift(s: Seq<char>, pos: int, m: Mode, st: Seq<Ctx>, t: Seq<char>, d: int)
    requires
        0 <= pos <= s.len(),
        scan_from(s, pos, m, st) is Some,
        0 <= pos + d,
        scan_from(s, pos, m, st).unwrap() + d <= t.len(),
        forall|i: int|
            pos <= i < scan_from(s, pos, m, st).unwrap() ==> t[i + d] == s[i],
        ({
            let p = scan_from(s, pos, m, st).unwrap();
            (p + d == t.len()) || (p + d < t.len() && (t[p + d] == ',' || t[p + d] == '}' || t[p
                + d] == ']')) || (p < s.len() && p + d < t.len() && t[p + d] == s[p])
        }),
    ensures
        scan_from(t, pos + d, m, st) == Some(scan_from(s, pos, m, st).unwrap() + d),
    decreases s.len() - pos,
{
    let p = scan_from(s, pos, m, st).unwrap();
    lemma_scan_bounds(s, pos, m, st);
    if scan_done(s, pos, m, st) {
        assert(p == pos);
        assert(scan_done(t, pos + d, m, st));
    } else {
        // the scan is not done at `pos` in `s`, hence `pos < p`
        assert(pos < s.len());
        if pos < p {
            assert(t[pos + d] == s[pos]);
            assert(!scan_done(t, pos + d, m, st));
            let next = scan_step(m, st, s[pos]).unwrap();
            lemma_scan_shift(s, pos + 1, next.0, next.1, t, d);
        } else {
            // impossible: an unfinished scan that returns its own position
            assert(scan_from(s, pos, m, st) == (match scan_step(m, st, s[pos]) {
                Option::Some(next) => scan_from(s, pos + 1, next.0, next.1),
                Option::None => None::<int>,
            }));
            lemma_scan_bounds(s, pos + 1, scan_step(m, st, s[pos]).unwrap().0, scan_step(m, st, s[pos]).unwrap().1);
        }
    }
}

/// Executable `skip_ws`.
pub fn skip_ws_exec(s: &Vec<char>, pos: usize) -> (r: usize)
    requires
        pos <= s@.len(),
    ensures
        r as int == skip_ws(s@, pos as int),
        pos <= r <= s@.len(),
        r == s@.len() || !is_ws(s@[r as int]),
{
    proof {
        lemma_skip_ws(s@, pos as int);
    }
    let mut r: usize = pos;
    while r < s.len() && is_ws_exec(s[r])
        invariant
            pos <= r <= s@.len(),
            skip_ws(s@, pos as int) == skip_ws(s@, r as int),
        decreases s@.len() - r,
    {
        r = r + 1;
    }
    r
}

/// Copies `s[from..to]` into a fresh vector.
pub fn copy_range(s: &Vec<char>, from: usize, to: usize) -> (r: Vec<char>)
    requires
        from <= to <= s@.len(),
    ensures
        r@ == s@.subrange(from as int, to as int),
{
    let mut r: Vec<char> = Vec::new();
    let mut i: usize = from;
    proof {
        assert(r@ =~= s@.subrange(from as int, from as int));
    }
    while i < to
        invariant
            from <= i <= to <= s@.len(),
            r@ == s@.subrange(from as int, i as int),
        decreases to - i,
    {
        r.push(s[i]);
        proof {
            assert(s@.subrange(from as int, i as int + 1) =~= s@.subrange(
                from as int,
                i as int,
            ).push(s@[i as int]));
        }
        i = i + 1;
    }
    r
}

// ---------------------------------------------------------------------------
// Round-trip lemmas: printing then reading gives the value back
// ---------------------------------------------------------------------------

pub proof fn lemma_digit_char(d: nat)
    requires
        d < 10,
    ensures
        is_digit(digit_char(d)),
        digit_val(digit_char(d)) == d,
        digit_char(d) == '0' <==> d == 0,
{
    assert((((d + 48) as u8) as char) as u32 == d + 48);
}

pub proof fn lemma_hex_char(d: nat)
    requires
        d < 16,
    ensures
        hex_val(hex_char(d)) == Some(d),
{
    if d < 10 {
        assert((((d + 48) as u8) as char) as u32 == d + 48);
    } else {
        assert((((d + 87) as u8) as char) as u32 == d + 87);
    }
}

/// The digits of a printed number: at least one, all decimal, and no
/// superfluous leading zero.
pub proof fn lemma_uint_chars(n: nat)
    ensures
        uint_chars(n).len() >= 1,
        forall|i: int| 0 <= i < uint_chars(n).len() ==> is_digit(#[trigger] uint_chars(n)[i]),
        n >= 1 ==> uint_chars(n)[0] != '0',
        n == 0 ==> uint_chars(n) == seq![digit_char(0)],
    decreases n,
{
    if n < 10 {
        lemma_digit_char(n);
    } else {
        lemma_uint_chars(n / 10);
        lemma_digit_char(n % 10);
        assert(uint_chars(n) == uint_chars(n / 10).push(digit_char(n % 10)));
        assert(uint_chars(n)[0] == uint_chars(n / 10)[0]);
        assert(n / 10 >= 1);
    }
}

/// A digit run bounded by a non-digit is scanned to exactly its end.
pub proof fn lemma_scan_digits_run(t: Seq<char>, pos: int, q: int)
    requires
        0 <= pos <= q <= t.len(),
        forall|i: int| pos <= i < q ==> is_digit(t[i]),
        q == t.len() || !is_digit(t[q]),
    ensures
        scan_digits(t, pos) == q,
    decreases q - pos,
{
    if pos < q {
        lemma_scan_digits_run(t, pos + 1, q);
    }
}

/// Reading back the digits of `n` yields `n`.
pub proof fn lemma_digits_val_of_uint(t: Seq<char>, pos: int, n: nat)
    requires
        0 <= pos,
        pos + uint_chars(n).len() <= t.len(),
        t.subrange(pos, pos + uint_chars(n).len()) == uint_chars(n),
    ensures
        digits_val(t, pos, pos + uint_chars(n).len()) == n,
    decreases n,
{
    let cs = uint_chars(n);
    if n < 10 {
        lemma_digit_char(n);
        assert(t[pos] == t.subrange(pos, pos + 1)[0]);
        assert(digits_val(t, pos, pos + 1) == digits_val(t, pos, pos) * 10 + digit_val(t[pos]));
    } else {
        let pre = uint_chars(n / 10);
        lemma_digit_char(n % 10);
        assert(cs == pre.push(digit_char(n % 10)));
        assert(t.subrange(pos, pos + pre.len() as int) =~= pre) by {
            assert(forall|i: int|
                0 <= i < pre.len() ==> t.subrange(pos, pos + cs.len() as int)[i] == #[trigger] cs[
                    i]);
        }
        lemma_digits_val_of_uint(t, pos, n / 10);
        assert(t[pos + cs.len() - 1] == t.subrange(pos, pos + cs.len() as int)[cs.len() - 1]);
        assert(t[pos + cs.len() - 1] == digit_char(n % 10));
        assert(digits_val(t, pos, pos + cs.len() as int) == digits_val(
            t,
            pos,
            pos + cs.len() - 1,
        ) * 10 + digit_val(t[pos + cs.len() - 1]));
        assert((n / 10) * 10 + n % 10 == n) by (nonlinear_arith);
    }
}

/// A printed number followed by a non-digit parses back to itself.
pub proof fn lemma_parse_uint_at(t: Seq<char>, pos: int, n: nat)
    requires
        0 <= pos,
        pos + uint_chars(n).len() <= t.len(),
        t.subrange(pos, pos + uint_chars(n).len()) == uint_chars(n),
        pos + uint_chars(n).len() == t.len() || !is_digit(t[pos + uint_chars(n).len()]),
    ensures
        parse_uint(t, pos) == Some((n, pos + uint_chars(n).len())),
{
    let cs = uint_chars(n);
    let q = pos + cs.len();
    lemma_uint_chars(n);
    assert forall|i: int| pos <= i < q implies is_digit(t[i]) by {
        assert(t[i] == t.subrange(pos, q)[i - pos]);
        assert(is_digit(cs[i - pos]));
    }
    lemma_scan_digits_run(t, pos, q);
    assert(t[pos] == t.subrange(pos, q)[0]);
    if t[pos] == '0' && q > pos + 1 {
        // impossible: a multi-digit print never starts with zero
        assert(cs[0] == '0');
        assert(cs.len() > 1);
        if n == 0 {
            assert(cs.len() == 1);
        } else {
            lemma_digit_char(0);
        }
        assert(false);
    }
    lemma_digits_val_of_uint(t, pos, n);
}

/// A character that escaping leaves alone.
pub open spec fn plain_char(c: char) -> bool {
    c != '"' && c != '\\' && c as u32 >= 0x20
}

/// Escaping is the identity on plain text.
pub proof fn lemma_esc_plain(x: Seq<char>)
    requires
        forall|i: int| 0 <= i < x.len() ==> plain_char(#[trigger] x[i]),
    ensures
        esc(x) == x,
    decreases x.len(),
{
    if x.len() == 0 {
        assert(esc(x) =~= x);
    } else {
        assert(plain_char(x[0]));
        assert(esc_char(x[0]) == seq![x[0]]);
        lemma_esc_plain(x.drop_first());
        assert(esc(x) =~= x);
    }
}

/// An escaped string body followed by its closing quote parses back to the
/// original text.
#[verifier::rlimit(100)]
pub proof fn lemma_parse_escaped(t: Seq<char>, pos: int, x: Seq<char>)
    requires
        0 <= pos,
        pos + esc(x).len() + 1 <= t.len(),
        t.subrange(pos, pos + esc(x).len()) == esc(x),
        t[pos + esc(x).len()] == '"',
    ensures
        parse_str_body(t, pos) == Some((x, pos + esc(x).len() + 1)),
    decreases x.len(),
{
    broadcast use vstd::utf8::char_u32_cast;

    let ex = esc(x);
    if x.len() == 0 {
        assert(ex =~= Seq::<char>::empty());
        assert(t[pos] == '"');
        assert(x =~= Seq::<char>::empty());
    } else {
        let c = x[0];
        let ec = esc_char(c);
        let rest = x.drop_first();
        let er = esc(rest);
        assert(ex == ec + er);
        assert forall|i: int| 0 <= i < ec.len() implies t[pos + i] == ec[i] by {
            assert(t[pos + i] == t.subrange(pos, pos + ex.len() as int)[i]);
            assert(ex[i] == ec[i]);
        }
        let pos2 = pos + ec.len();
        assert(t.subrange(pos2, pos2 + er.len() as int) =~= er) by {
            assert forall|i: int| 0 <= i < er.len() implies t.subrange(
                pos2,
                pos2 + er.len() as int,
            )[i] == er[i] by {
                assert(t.subrange(pos2, pos2 + er.len() as int)[i] == t[pos2 + i]);
                assert(t[pos2 + i] == t.subrange(pos, pos + ex.len() as int)[ec.len() + i]);
                assert(ex[ec.len() + i] == er[i]);
            }
        }
        lemma_parse_escaped(t, pos2, rest);
        assert(seq![c] + rest =~= x);
        if c == '"' || c == '\\' {
            assert(t[pos] == '\\' && t[pos + 1] == c);
            assert(unesc(c) == Some(c));
        } else if c == '\n' {
            assert(t[pos] == '\\' && t[pos + 1] == 'n');
        } else if c == '\r' {
            assert(t[pos] == '\\' && t[pos + 1] == 'r');
        } else if c == '\t' {
            assert(t[pos] == '\\' && t[pos + 1] == 't');
        } else if c == '\u{08}' {
            assert(t[pos] == '\\' && t[pos + 1] == 'b');
        } else if c == '\u{0C}' {
            assert(t[pos] == '\\' && t[pos + 1] == 'f');
        } else if (c as u32) < 0x20 {
            let u = c as u32;
            lemma_hex_char((u / 16) as nat);
            lemma_hex_char((u % 16) as nat);
            assert(t[pos] == '\\' && t[pos + 1] == 'u' && t[pos + 2] == '0' && t[pos + 3]
                == '0' && t[pos + 4] == hex_char((u / 16) as nat) && t[pos + 5] == hex_char(
                (u % 16) as nat,
            ));
            assert(hex_val('0') == Some(0nat));
            assert(hex4_val(t, pos + 2) == Some(
                ((0nat * 16 + 0nat) * 16 + (u / 16) as nat) * 16 + (u % 16) as nat,
            ));
            assert(((0nat * 16 + 0nat) * 16 + (u / 16) as nat) * 16 + (u % 16) as nat
                == u as nat) by {
                vstd::arithmetic::div_mod::lemma_fundamental_div_mod(u as int, 16);
            }
            assert((u as nat) as u32 == u);
            vstd::utf8::char_u32_cast(c, u);
            assert(u as char == c);
            assert(((u as nat) as u32) as char == c);
        } else {
            assert(ec == seq![c]);
            assert(t[pos] == c);
        }
    }
}

} // verus!
