//! The value scanner: reads exactly one cell value from a line of
//! characters, starting at a character offset, together with the terminator that
//! stopped it.
//!
//! The grammar is stated as an explicit character-level state machine:
//! `scan_step` consumes one character, `scan_finish` closes the value at end
//! of line, and `scan_run` folds them over the line. The executable scanner
//! is proved to return exactly what the machine yields.
//!
//! A value is committed by its first non-blank character: a terminator makes
//! an empty cell, a quote a string, an equals sign a formula, a sign or
//! digit a number. Inside a formula, an uppercase run followed by digits is
//! a reference, a lowercase run followed by `(` opens a function call whose
//! arguments are scanned in the same way (each argument is itself a formula
//! node), and a leading digit, sign or quote delegates to a plain scan whose
//! value is wrapped as a literal. Open calls are kept on a stack of frames.

use vstd::prelude::*;

verus! {

use crate::coord::{decode_spec, is_upper_char, Coord, CoordFromRefErr};
use crate::digits::is_digit_char;
use crate::value::{CellValueV, FormulaV};

/// Why a scan failed.
#[derive(Copy, Clone, Debug, PartialEq, Eq, Structural)]
pub enum ParseErrKind {
    UnparseableLeadingCharacter,
    UnknownEscapeSequence,
    UnterminatedString,
    TrailingCharactersAfterString,
    SignOnlyNumber,
    MisplacedSign,
    TrailingCharactersAfterNumber,
    InvalidNumericDigit,
    ExpectedOpenParen,
    UnclosedBracket,
    MixedCaseIdentifier,
    InvalidFormulaCharacter,
    TrailingCharactersAfterFormula,
    InvalidTrailingCharacter,
    InvalidLetter,
    InvalidNumber,
}

/// A scan failure: the zero-based column of the offending character and
/// what went wrong there.
#[derive(Copy, Clone, Debug, PartialEq, Eq, Structural)]
pub struct ScanError {
    pub col: usize,
    pub kind: ParseErrKind,
}

/// The blank characters a scan skips.
pub open spec fn is_ws_char(c: char) -> bool {
    c == ' ' || c == '\t'
}

/// The characters that may end a value.
pub open spec fn is_term_char(c: char) -> bool {
    c == ',' || c == ')'
}

/// True of the lowercase ASCII letters `a`-`z`.
pub open spec fn is_lower_char(c: char) -> bool {
    'a' <= c && c <= 'z'
}

/// What the character after a backslash stands for, if anything.
pub open spec fn escape_translation(c: char) -> Option<char> {
    if c == '\\' {
        Some('\\')
    } else if c == '"' {
        Some('"')
    } else if c == 'n' {
        Some('\n')
    } else if c == 't' {
        Some('\t')
    } else if c == 'r' {
        Some('\r')
    } else {
        None
    }
}

/// `s` without its trailing blanks.
pub open spec fn trim_trailing_ws(s: Seq<char>) -> Seq<char>
    decreases s.len(),
{
    if s.len() > 0 && is_ws_char(s.last()) {
        trim_trailing_ws(s.drop_last())
    } else {
        s
    }
}

/// `s` without its underscores.
pub open spec fn strip_underscores(s: Seq<char>) -> Seq<char>
    decreases s.len(),
{
    if s.len() == 0 {
        s
    } else if s.last() == '_' {
        strip_underscores(s.drop_last())
    } else {
        strip_underscores(s.drop_last()).push(s.last())
    }
}

/// The cleaned text of the numeric run `s[ns..end]`: trailing blanks
/// trimmed, underscores stripped.
pub open spec fn cleaned_number(s: Seq<char>, ns: int, end: int) -> Seq<char> {
    strip_underscores(trim_trailing_ws(s.subrange(ns, end)))
}

/// True of a numeric run that holds nothing but its sign.
pub open spec fn sign_only(t: Seq<char>) -> bool {
    t == seq!['+'] || t == seq!['-']
}

/// One open function call: its name and the arguments parsed so far.
#[verifier::ext_equal]
pub struct FrameV {
    pub name: Seq<char>,
    pub args: Seq<FormulaV>,
}

/// Where the machine stands within the current value.
///
/// The integer payloads are character positions in the line: where a
/// number, a function name, or a reference's letters and digits began.
#[verifier::ext_equal]
pub enum ModeV {
    /// Nothing committed yet; blanks pass by.
    Start,
    /// Inside a quoted string; the payload is the text read so far.
    StrBody(Seq<char>),
    /// Inside a string, immediately after a backslash.
    StrEsc(Seq<char>),
    /// After a string's closing quote, waiting for its terminator.
    StrEnd(Seq<char>),
    /// Inside a numeric run that began at the payload position.
    NumBody(int),
    /// After a numeric run ended by a blank, waiting for its terminator.
    NumEnd(int),
    /// In a formula body with nothing committed; the flag is true right
    /// after an opening parenthesis, where `)` may close an empty
    /// argument list.
    FPre(bool),
    /// In a lowercase function-name run that began at the payload position.
    FFn(int),
    /// In a reference: letters from the first position, digits from the
    /// second once one was seen.
    FRef(int, Option<int>),
    /// A formula value is complete, waiting for its terminator.
    FDone(FormulaV),
}

/// The machine's whole state: the mode, whether a committed plain value
/// belongs to a formula literal, and the open function calls.
#[verifier::ext_equal]
pub struct StV {
    pub mode: ModeV,
    pub lit: bool,
    pub stack: Seq<FrameV>,
}

/// A finished scan: the value and the position just past its span; the
/// character there, if any, is the terminator.
#[verifier::ext_equal]
pub struct ScanOkV {
    pub value: CellValueV,
    pub end: int,
}

/// A failed scan.
#[verifier::ext_equal]
pub struct ScanFailV {
    pub col: int,
    pub kind: ParseErrKind,
}

/// What one step of the machine does.
pub enum StepV {
    Next(StV),
    Done(CellValueV),
    Fail(int, ParseErrKind),
}

/// A formula value met its terminator `c`: with no open call the scan is
/// done; on `,` it joins the innermost call's arguments; on `)` it closes
/// that call.
pub open spec fn complete_formula(fv: FormulaV, c: char, st: StV) -> StepV {
    if st.stack.len() == 0 {
        StepV::Done(CellValueV::Formula(fv))
    } else if c == ',' {
        let k = st.stack.len() - 1;
        let fr = st.stack[k];
        StepV::Next(
            StV {
                mode: ModeV::FPre(false),
                lit: st.lit,
                stack: st.stack.update(k, FrameV { name: fr.name, args: fr.args.push(fv) }),
            },
        )
    } else {
        let fr = st.stack.last();
        StepV::Next(
            StV {
                mode: ModeV::FDone(FormulaV::FunctionCall(fr.name, fr.args.push(fv))),
                lit: st.lit,
                stack: st.stack.drop_last(),
            },
        )
    }
}

/// A plain value met its terminator: wrapped as a formula literal when it
/// was scanned inside a formula, finished otherwise.
pub open spec fn complete_plain(v: CellValueV, c: char, st: StV) -> StepV {
    if st.lit {
        complete_formula(FormulaV::Literal(Box::new(v)), c, st)
    } else {
        StepV::Done(v)
    }
}

/// Decodes the reference whose letters began at `rs` and whose digits, if
/// any were seen, began at `ds`, ending at `end`. A reference without
/// digits fails at `wscol`.
pub open spec fn resolve_ref(s: Seq<char>, rs: int, ds: Option<int>, end: int, wscol: int) -> Result<
    Coord,
    ScanFailV,
> {
    match ds {
        None => Err(ScanFailV { col: wscol, kind: ParseErrKind::InvalidNumber }),
        Some(d) => match decode_spec(s, rs, d, end) {
            Ok(co) => Ok(co),
            Err(CoordFromRefErr::InvalidLetter) => Err(
                ScanFailV { col: rs, kind: ParseErrKind::InvalidLetter },
            ),
            Err(CoordFromRefErr::InvalidNumber) => Err(
                ScanFailV { col: d, kind: ParseErrKind::InvalidNumber },
            ),
        },
    }
}

/// Cleans the numeric run `s[ns..end]`; a run that holds only its sign
/// fails at `end`.
pub open spec fn finalize_number(s: Seq<char>, ns: int, end: int) -> Result<Seq<char>, ScanFailV> {
    let t = cleaned_number(s, ns, end);
    if sign_only(t) {
        Err(ScanFailV { col: end, kind: ParseErrKind::SignOnlyNumber })
    } else {
        Ok(t)
    }
}

/// One step of the machine on the character `s[i]`.
pub open spec fn scan_step(s: Seq<char>, i: int, st: StV) -> StepV {
    let c = s[i];
    match st.mode {
        ModeV::Start => {
            if is_term_char(c) {
                StepV::Done(CellValueV::Empty)
            } else if is_ws_char(c) {
                StepV::Next(st)
            } else if c == '"' {
                StepV::Next(StV { mode: ModeV::StrBody(Seq::empty()), lit: false, stack: st.stack })
            } else if c == '=' {
                StepV::Next(StV { mode: ModeV::FPre(false), lit: false, stack: st.stack })
            } else if c == '-' || c == '+' || is_digit_char(c) {
                StepV::Next(StV { mode: ModeV::NumBody(i), lit: false, stack: st.stack })
            } else {
                StepV::Fail(i, ParseErrKind::UnparseableLeadingCharacter)
            }
        },
        ModeV::StrBody(acc) => {
            if c == '\\' {
                StepV::Next(StV { mode: ModeV::StrEsc(acc), lit: st.lit, stack: st.stack })
            } else if c == '"' {
                StepV::Next(StV { mode: ModeV::StrEnd(acc), lit: st.lit, stack: st.stack })
            } else {
                StepV::Next(StV { mode: ModeV::StrBody(acc.push(c)), lit: st.lit, stack: st.stack })
            }
        },
        ModeV::StrEsc(acc) => match escape_translation(c) {
            Some(e) => StepV::Next(
                StV { mode: ModeV::StrBody(acc.push(e)), lit: st.lit, stack: st.stack },
            ),
            None => StepV::Fail(i - 1, ParseErrKind::UnknownEscapeSequence),
        },
        ModeV::StrEnd(acc) => {
            if is_term_char(c) {
                complete_plain(CellValueV::Text(acc), c, st)
            } else if is_ws_char(c) {
                StepV::Next(st)
            } else {
                StepV::Fail(i, ParseErrKind::TrailingCharactersAfterString)
            }
        },
        ModeV::NumBody(ns) => {
            if is_term_char(c) {
                match finalize_number(s, ns, i) {
                    Ok(t) => complete_plain(CellValueV::Number(t), c, st),
                    Err(f) => StepV::Fail(f.col, f.kind),
                }
            } else if is_digit_char(c) || c == '_' {
                StepV::Next(st)
            } else if is_ws_char(c) {
                StepV::Next(StV { mode: ModeV::NumEnd(ns), lit: st.lit, stack: st.stack })
            } else if c == '-' || c == '+' {
                StepV::Fail(i, ParseErrKind::MisplacedSign)
            } else {
                StepV::Fail(i, ParseErrKind::InvalidNumericDigit)
            }
        },
        ModeV::NumEnd(ns) => {
            if is_term_char(c) {
                match finalize_number(s, ns, i) {
                    Ok(t) => complete_plain(CellValueV::Number(t), c, st),
                    Err(f) => StepV::Fail(f.col, f.kind),
                }
            } else if is_ws_char(c) {
                StepV::Next(st)
            } else {
                StepV::Fail(i, ParseErrKind::TrailingCharactersAfterNumber)
            }
        },
        ModeV::FPre(first) => {
            if is_ws_char(c) {
                StepV::Next(st)
            } else if is_upper_char(c) {
                StepV::Next(StV { mode: ModeV::FRef(i, None), lit: st.lit, stack: st.stack })
            } else if is_lower_char(c) {
                StepV::Next(StV { mode: ModeV::FFn(i), lit: st.lit, stack: st.stack })
            } else if is_digit_char(c) || c == '-' || c == '+' {
                StepV::Next(StV { mode: ModeV::NumBody(i), lit: true, stack: st.stack })
            } else if c == '"' {
                StepV::Next(StV { mode: ModeV::StrBody(Seq::empty()), lit: true, stack: st.stack })
            } else if c == ')' && first && st.stack.len() > 0 {
                let fr = st.stack.last();
                StepV::Next(
                    StV {
                        mode: ModeV::FDone(FormulaV::FunctionCall(fr.name, fr.args)),
                        lit: st.lit,
                        stack: st.stack.drop_last(),
                    },
                )
            } else {
                StepV::Fail(i, ParseErrKind::InvalidFormulaCharacter)
            }
        },
        ModeV::FFn(fs) => {
            if is_lower_char(c) {
                StepV::Next(st)
            } else if is_upper_char(c) {
                StepV::Fail(i, ParseErrKind::MixedCaseIdentifier)
            } else if c == '(' {
                StepV::Next(
                    StV {
                        mode: ModeV::FPre(true),
                        lit: st.lit,
                        stack: st.stack.push(
                            FrameV { name: s.subrange(fs, i), args: Seq::empty() },
                        ),
                    },
                )
            } else {
                StepV::Fail(i, ParseErrKind::ExpectedOpenParen)
            }
        },
        ModeV::FRef(rs, ds) => {
            if is_lower_char(c) {
                StepV::Fail(i, ParseErrKind::MixedCaseIdentifier)
            } else if is_upper_char(c) {
                match ds {
                    None => StepV::Next(st),
                    Some(_) => StepV::Fail(i, ParseErrKind::InvalidFormulaCharacter),
                }
            } else if is_digit_char(c) {
                match ds {
                    None => StepV::Next(
                        StV { mode: ModeV::FRef(rs, Some(i)), lit: st.lit, stack: st.stack },
                    ),
                    Some(_) => StepV::Next(st),
                }
            } else if is_ws_char(c) {
                match resolve_ref(s, rs, ds, i, i) {
                    Ok(co) => StepV::Next(
                        StV {
                            mode: ModeV::FDone(FormulaV::Reference(co)),
                            lit: st.lit,
                            stack: st.stack,
                        },
                    ),
                    Err(f) => StepV::Fail(f.col, f.kind),
                }
            } else if is_term_char(c) {
                match resolve_ref(s, rs, ds, i, i) {
                    Ok(co) => complete_formula(FormulaV::Reference(co), c, st),
                    Err(f) => StepV::Fail(f.col, f.kind),
                }
            } else {
                StepV::Fail(i, ParseErrKind::InvalidFormulaCharacter)
            }
        },
        ModeV::FDone(fv) => {
            if is_ws_char(c) {
                StepV::Next(st)
            } else if is_term_char(c) {
                complete_formula(fv, c, st)
            } else {
                StepV::Fail(i, ParseErrKind::TrailingCharactersAfterFormula)
            }
        },
    }
}

/// A formula value stood complete at end of line: the scan is done unless
/// a call is still open.
pub open spec fn finish_formula(fv: FormulaV, st: StV, len: int) -> Result<ScanOkV, ScanFailV> {
    if st.stack.len() == 0 {
        Ok(ScanOkV { value: CellValueV::Formula(fv), end: len })
    } else {
        Err(ScanFailV { col: len, kind: ParseErrKind::UnclosedBracket })
    }
}

/// A plain value stood complete at end of line.
pub open spec fn finish_plain(v: CellValueV, st: StV, len: int) -> Result<ScanOkV, ScanFailV> {
    if st.lit {
        finish_formula(FormulaV::Literal(Box::new(v)), st, len)
    } else {
        Ok(ScanOkV { value: v, end: len })
    }
}

/// Closes the scan at end of line: a number finalizes, a pending reference
/// resolves, an open string fails, a formula with nothing committed is the
/// empty literal.
pub open spec fn scan_finish(s: Seq<char>, st: StV) -> Result<ScanOkV, ScanFailV> {
    let len = s.len() as int;
    match st.mode {
        ModeV::Start => Ok(ScanOkV { value: CellValueV::Empty, end: len }),
        ModeV::StrBody(_) => Err(ScanFailV { col: len, kind: ParseErrKind::UnterminatedString }),
        ModeV::StrEsc(_) => Err(ScanFailV { col: len, kind: ParseErrKind::UnterminatedString }),
        ModeV::StrEnd(acc) => finish_plain(CellValueV::Text(acc), st, len),
        ModeV::NumBody(ns) => match finalize_number(s, ns, len) {
            Ok(t) => finish_plain(CellValueV::Number(t), st, len),
            Err(f) => Err(f),
        },
        ModeV::NumEnd(ns) => match finalize_number(s, ns, len) {
            Ok(t) => finish_plain(CellValueV::Number(t), st, len),
            Err(f) => Err(f),
        },
        ModeV::FPre(_) => finish_formula(
            FormulaV::Literal(Box::new(CellValueV::Empty)),
            st,
            len,
        ),
        ModeV::FFn(_) => finish_formula(FormulaV::Literal(Box::new(CellValueV::Empty)), st, len),
        ModeV::FRef(rs, ds) => match resolve_ref(s, rs, ds, len, len) {
            Ok(co) => finish_formula(FormulaV::Reference(co), st, len),
            Err(f) => Err(f),
        },
        ModeV::FDone(fv) => finish_formula(fv, st, len),
    }
}

/// Folds the machine over `s` from position `i` in state `st`.
pub open spec fn scan_run(s: Seq<char>, i: int, st: StV) -> Result<ScanOkV, ScanFailV>
    decreases s.len() - i,
{
    if i >= s.len() {
        scan_finish(s, st)
    } else {
        match scan_step(s, i, st) {
            StepV::Next(st2) => scan_run(s, i + 1, st2),
            StepV::Done(v) => Ok(ScanOkV { value: v, end: i }),
            StepV::Fail(col, kind) => Err(ScanFailV { col, kind }),
        }
    }
}

/// The machine's starting state.
pub open spec fn init_state() -> StV {
    StV { mode: ModeV::Start, lit: false, stack: Seq::empty() }
}

/// What scanning one value of `s` from `start` yields: the value, its
/// span's end, and through `end` its terminator, or the first failure.
pub open spec fn spec_scan(s: Seq<char>, start: int) -> Result<ScanOkV, ScanFailV> {
    scan_run(s, start, init_state())
}

/// A successful scan ends within the line and never before its start.
pub proof fn lemma_scan_run_end(s: Seq<char>, i: int, st: StV)
    ensures
        match scan_run(s, i, st) {
            Ok(o) => o.end <= s.len() && (i <= s.len() ==> i <= o.end),
            Err(_) => true,
        },
    decreases s.len() - i,
{
    if i < s.len() {
        match scan_step(s, i, st) {
            StepV::Next(st2) => lemma_scan_run_end(s, i + 1, st2),
            StepV::Done(_) => {},
            StepV::Fail(_, _) => {},
        }
    }
}


use crate::coord::decode_spans;
use crate::value::{lemma_view_formula_seq_push, view_formula_seq, Cell, CellValue, Formula};

/// Where the executable scanner stands; the payloads are positions, as in
/// `ModeV`. The string being read, the finished formula value and the open
/// calls live beside it.
#[derive(Copy, Clone)]
enum ExecMode {
    Start,
    StrBody,
    StrEsc,
    StrEnd,
    NumBody(usize),
    NumEnd(usize),
    FPre(bool),
    FFn(usize),
    FRef(usize, Option<usize>),
    FDone,
}

/// The view of one open call.
spec fn frame_view(p: (String, Vec<Formula>)) -> FrameV {
    FrameV { name: p.0@, args: view_formula_seq(p.1@) }
}

/// The view of the open-call stack.
spec fn stack_view(st: Seq<(String, Vec<Formula>)>) -> Seq<FrameV> {
    st.map_values(|p: (String, Vec<Formula>)| frame_view(p))
}

/// The machine mode the executable state stands for.
spec fn mode_view(m: ExecMode, acc: Seq<char>, fv: FormulaV) -> ModeV {
    match m {
        ExecMode::Start => ModeV::Start,
        ExecMode::StrBody => ModeV::StrBody(acc),
        ExecMode::StrEsc => ModeV::StrEsc(acc),
        ExecMode::StrEnd => ModeV::StrEnd(acc),
        ExecMode::NumBody(ns) => ModeV::NumBody(ns as int),
        ExecMode::NumEnd(ns) => ModeV::NumEnd(ns as int),
        ExecMode::FPre(first) => ModeV::FPre(first),
        ExecMode::FFn(fs) => ModeV::FFn(fs as int),
        ExecMode::FRef(rs, ds) => ModeV::FRef(
            rs as int,
            match ds {
                Some(d) => Some(d as int),
                None => None,
            },
        ),
        ExecMode::FDone => ModeV::FDone(fv),
    }
}

/// The machine state the executable state stands for.
spec fn st_view(m: ExecMode, acc: Seq<char>, lit: bool, fv: FormulaV, stack: Seq<(String, Vec<Formula>)>) -> StV {
    StV { mode: mode_view(m, acc, fv), lit: lit, stack: stack_view(stack) }
}

/// The positions a mode carries lie before the scanner's own position.
spec fn mode_wf(m: ExecMode, i: int, start: int) -> bool {
    match m {
        ExecMode::NumBody(ns) => start <= ns < i,
        ExecMode::NumEnd(ns) => start <= ns < i,
        ExecMode::FFn(fs) => start <= fs < i,
        ExecMode::FRef(rs, ds) => start <= rs < i && (match ds {
            Some(d) => rs < d < i,
            None => true,
        }),
        ExecMode::StrEsc => i >= 1,
        _ => true,
    }
}

/// Copies the characters `line[a..b]` into a fresh string.
pub(crate) fn string_of_range(line: &Vec<char>, a: usize, b: usize) -> (r: String)
    requires
        a <= b <= line@.len(),
    ensures
        r@ == line@.subrange(a as int, b as int),
{
    let mut r = String::new();
    let mut j = a;
    while j < b
        invariant
            a <= j <= b <= line@.len(),
            r@ == line@.subrange(a as int, j as int),
        decreases b - j,
    {
        r.push(line[j]);
        proof {
            assert(line@.subrange(a as int, j as int + 1) =~= line@.subrange(
                a as int,
                j as int,
            ).push(line@[j as int]));
        }
        j = j + 1;
    }
    r
}

/// Cleans the numeric run `line[ns..end]` as `finalize_number` says:
/// `None` when nothing but a sign is left.
fn exec_cleaned_number(line: &Vec<char>, ns: usize, end: usize) -> (r: Option<String>)
    requires
        ns <= end <= line@.len(),
    ensures
        match r {
            Some(t) => finalize_number(line@, ns as int, end as int) == Ok::<
                Seq<char>,
                ScanFailV,
            >(t@),
            None => finalize_number(line@, ns as int, end as int) == Err::<Seq<char>, ScanFailV>(
                ScanFailV { col: end as int, kind: ParseErrKind::SignOnlyNumber },
            ),
        },
{
    let mut e: usize = end;
    while e > ns && (line[e - 1] == ' ' || line[e - 1] == '\t')
        invariant
            ns <= e <= end <= line@.len(),
            trim_trailing_ws(line@.subrange(ns as int, end as int)) == trim_trailing_ws(
                line@.subrange(ns as int, e as int),
            ),
        decreases e,
    {
        proof {
            let cur = line@.subrange(ns as int, e as int);
            assert(cur.len() > 0 && is_ws_char(cur.last()));
            assert(cur.drop_last() =~= line@.subrange(ns as int, e as int - 1));
        }
        e = e - 1;
    }
    proof {
        let cur = line@.subrange(ns as int, e as int);
        assert(trim_trailing_ws(cur) == cur);
    }
    let mut t = String::new();
    let mut cnt: usize = 0;
    let mut first: char = ' ';
    let mut j = ns;
    while j < e
        invariant
            ns <= j <= e <= line@.len(),
            t@ == strip_underscores(line@.subrange(ns as int, j as int)),
            cnt == t@.len(),
            cnt <= j - ns,
            cnt > 0 ==> first == t@[0],
        decreases e - j,
    {
        let c = line[j];
        proof {
            assert(line@.subrange(ns as int, j as int + 1).drop_last() =~= line@.subrange(
                ns as int,
                j as int,
            ));
            assert(line@.subrange(ns as int, j as int + 1).last() == line@[j as int]);
        }
        if c != '_' {
            if cnt == 0 {
                first = c;
            }
            t.push(c);
            cnt = cnt + 1;
        }
        j = j + 1;
    }
    proof {
        assert(t@ == cleaned_number(line@, ns as int, end as int));
    }
    if cnt == 1 && (first == '+' || first == '-') {
        proof {
            assert(t@ =~= seq![first]);
            assert(sign_only(t@));
        }
        None
    } else {
        proof {
            assert(!sign_only(t@)) by {
                if cnt == 1 {
                    assert(t@[0] == first);
                }
            }
        }
        Some(t)
    }
}

/// Joins a finished formula value to the innermost open call: on a comma
/// it becomes one more argument, on a closing parenthesis it closes the
/// call, whose value comes back.
fn apply_formula_term(fv_in: Formula, comma: bool, stack: &mut Vec<(String, Vec<Formula>)>) -> (r:
    Option<Formula>)
    requires
        old(stack)@.len() > 0,
    ensures
        ({
            let sv = stack_view(old(stack)@);
            let k = sv.len() - 1;
            let fr = sv[k];
            if comma {
                r is None && stack_view(final(stack)@) == sv.update(
                    k,
                    FrameV { name: fr.name, args: fr.args.push(fv_in@) },
                )
            } else {
                stack_view(final(stack)@) == sv.drop_last() && (r matches Some(f) && f@
                    == FormulaV::FunctionCall(fr.name, fr.args.push(fv_in@)))
            }
        }),
{
    let ghost oldstack = stack@;
    let ghost fvin = fv_in;
    let ghost fvv = fv_in@;
    let (name, mut args) = stack.pop().unwrap();
    let ghost old_args = args@;
    args.push(fv_in);
    proof {
        lemma_view_formula_seq_push(old_args, fvin);
        assert(stack@ =~= oldstack.drop_last());
    }
    if comma {
        stack.push((name, args));
        proof {
            let sv = stack_view(oldstack);
            let k = sv.len() - 1;
            let fr = sv[k];
            assert(stack_view(stack@) =~= sv.update(
                k,
                FrameV { name: fr.name, args: fr.args.push(fvv) },
            )) by {
                assert(forall|l: int|
                    0 <= l < oldstack.len() - 1 ==> #[trigger] stack@[l] == oldstack[l]);
                assert(stack@[k] == (name, args));
                assert(frame_view((name, args)).name == fr.name);
                assert(frame_view((name, args)).args == fr.args.push(fvv));
            }
        }
        None
    } else {
        let out = Formula::FunctionCall(name, args);
        proof {
            let sv = stack_view(oldstack);
            assert(stack_view(stack@) =~= sv.drop_last());
            assert(out@ == FormulaV::FunctionCall(sv[sv.len() - 1].name, sv[sv.len() - 1].args.push(
                fvv,
            )));
        }
        Some(out)
    }
}


/// Wraps a plain value as a formula literal, with its view pinned down.
fn literal_formula(v: CellValue) -> (f: Formula)
    ensures
        f@ == FormulaV::Literal(Box::new(v@)),
{
    let ghost vv = v@;
    let f = Formula::Literal(Box::new(v));
    proof {
        assert(f@ == FormulaV::Literal(Box::new(vv)));
    }
    f
}

/// Reads exactly one cell value of `line` starting at `start`: the parsed
/// cell with its source span, and the terminator that stopped it (none at
/// end of line), or the first failure.
#[verifier::rlimit(100)]
pub fn get_next_value(line: &Vec<char>, start: usize) -> (r: Result<
    (Cell, Option<char>),
    ScanError,
>)
    requires
        start <= line@.len(),
    ensures
        match r {
            Ok(p) => spec_scan(line@, start as int) matches Ok(o) && p.0@.value == o.value
                && p.0@.backing == line@.subrange(start as int, o.end) && (match p.1 {
                Some(t) => o.end < line@.len() && t == line@[o.end],
                None => o.end == line@.len(),
            }),
            Err(e) => spec_scan(line@, start as int) matches Err(f) && e.col as int == f.col
                && e.kind == f.kind,
        },
{
    let ghost s = line@;
    let len = line.len();
    let mut i = start;
    let mut mode = ExecMode::Start;
    let mut acc = String::new();
    let mut lit = false;
    let mut fv = Formula::Literal(Box::new(CellValue::Empty));
    let mut stack: Vec<(String, Vec<Formula>)> = Vec::new();
    proof {
        assert(stack_view(stack@) =~= Seq::<FrameV>::empty());
        assert(st_view(mode, acc@, lit, fv@, stack@) == init_state());
    }
    while i < len
        invariant
            s == line@,
            len == line@.len(),
            start <= i <= len,
            mode_wf(mode, i as int, start as int),
            scan_run(s, i as int, st_view(mode, acc@, lit, fv@, stack@)) == spec_scan(
                s,
                start as int,
            ),
        decreases len - i,
    {
        let c = line[i];
        let ghost st0 = st_view(mode, acc@, lit, fv@, stack@);
        match mode {
            ExecMode::Start => {
                if c == ',' || c == ')' {
                    let cell = Cell {
                        value: CellValue::Empty,
                        string_backing: string_of_range(line, start, i),
                    };
                    proof {
                        assert(scan_step(s, i as int, st0) == StepV::Done(CellValueV::Empty));
                    }
                    return Ok((cell, Some(c)));
                } else if c == ' ' || c == '\t' {
                } else if c == '"' {
                    acc = String::new();
                    lit = false;
                    mode = ExecMode::StrBody;
                } else if c == '=' {
                    lit = false;
                    mode = ExecMode::FPre(false);
                } else if c == '-' || c == '+' || ('0' <= c && c <= '9') {
                    lit = false;
                    mode = ExecMode::NumBody(i);
                } else {
                    proof {
                        assert(scan_step(s, i as int, st0) == StepV::Fail(
                            i as int,
                            ParseErrKind::UnparseableLeadingCharacter,
                        ));
                    }
                    return Err(
                        ScanError { col: i, kind: ParseErrKind::UnparseableLeadingCharacter },
                    );
                }
            },
            ExecMode::StrBody => {
                if c == '\\' {
                    mode = ExecMode::StrEsc;
                } else if c == '"' {
                    mode = ExecMode::StrEnd;
                } else {
                    acc.push(c);
                }
            },
            ExecMode::StrEsc => {
                let e = match c {
                    '\\' => Some('\\'),
                    '"' => Some('"'),
                    'n' => Some('\n'),
                    't' => Some('\t'),
                    'r' => Some('\r'),
                    _ => None,
                };
                proof {
                    assert(e == escape_translation(c));
                }
                match e {
                    Some(ec) => {
                        acc.push(ec);
                        mode = ExecMode::StrBody;
                    },
                    None => {
                        proof {
                            assert(scan_step(s, i as int, st0) == StepV::Fail(
                                i as int - 1,
                                ParseErrKind::UnknownEscapeSequence,
                            ));
                        }
                        return Err(
                            ScanError { col: i - 1, kind: ParseErrKind::UnknownEscapeSequence },
                        );
                    },
                }
            },
            ExecMode::StrEnd => {
                if c == ',' || c == ')' {
                    let a2 = acc;
                    acc = String::new();
                    if !lit {
                        let cell = Cell {
                            value: CellValue::Text(a2),
                            string_backing: string_of_range(line, start, i),
                        };
                        proof {
                            assert(scan_step(s, i as int, st0) == StepV::Done(cell@.value));
                        }
                        return Ok((cell, Some(c)));
                    } else {
                        let fv_cur = literal_formula(CellValue::Text(a2));
                                                if stack.len() == 0 {
                            let cell = Cell {
                                value: CellValue::Formula(fv_cur),
                                string_backing: string_of_range(line, start, i),
                            };
                            proof {
                                assert(scan_step(s, i as int, st0) == StepV::Done(cell@.value));
                            }
                            return Ok((cell, Some(c)));
                        } else if c == ',' {
                            let _ = apply_formula_term(fv_cur, true, &mut stack);
                            mode = ExecMode::FPre(false);
                        } else {
                            let r0 = apply_formula_term(fv_cur, false, &mut stack);
                            fv = r0.unwrap();
                            mode = ExecMode::FDone;
                        }
                    }
                } else if c == ' ' || c == '\t' {
                } else {
                    proof {
                        assert(scan_step(s, i as int, st0) == StepV::Fail(
                            i as int,
                            ParseErrKind::TrailingCharactersAfterString,
                        ));
                    }
                    return Err(
                        ScanError { col: i, kind: ParseErrKind::TrailingCharactersAfterString },
                    );
                }
            },
            ExecMode::NumBody(ns) => {
                if c == ',' || c == ')' {
                    match exec_cleaned_number(line, ns, i) {
                        None => {
                            proof {
                                assert(scan_step(s, i as int, st0) == StepV::Fail(
                                    i as int,
                                    ParseErrKind::SignOnlyNumber,
                                ));
                            }
                            return Err(ScanError { col: i, kind: ParseErrKind::SignOnlyNumber });
                        },
                        Some(t) => {
                            if !lit {
                                let cell = Cell {
                                    value: CellValue::Number(t),
                                    string_backing: string_of_range(line, start, i),
                                };
                                proof {
                                    assert(scan_step(s, i as int, st0) == StepV::Done(cell@.value));
                                }
                                return Ok((cell, Some(c)));
                            } else {
                                let fv_cur = literal_formula(CellValue::Number(t));
                                                                if stack.len() == 0 {
                                    let cell = Cell {
                                        value: CellValue::Formula(fv_cur),
                                        string_backing: string_of_range(line, start, i),
                                    };
                                    proof {
                                        assert(scan_step(s, i as int, st0) == StepV::Done(
                                            cell@.value,
                                        ));
                                    }
                                    return Ok((cell, Some(c)));
                                } else if c == ',' {
                                    let _ = apply_formula_term(fv_cur, true, &mut stack);
                                    mode = ExecMode::FPre(false);
                                } else {
                                    let r0 = apply_formula_term(fv_cur, false, &mut stack);
                                    fv = r0.unwrap();
                                    mode = ExecMode::FDone;
                                }
                            }
                        },
                    }
                } else if ('0' <= c && c <= '9') || c == '_' {
                } else if c == ' ' || c == '\t' {
                    mode = ExecMode::NumEnd(ns);
                } else if c == '-' || c == '+' {
                    proof {
                        assert(scan_step(s, i as int, st0) == StepV::Fail(
                            i as int,
                            ParseErrKind::MisplacedSign,
                        ));
                    }
                    return Err(ScanError { col: i, kind: ParseErrKind::MisplacedSign });
                } else {
                    proof {
                        assert(scan_step(s, i as int, st0) == StepV::Fail(
                            i as int,
                            ParseErrKind::InvalidNumericDigit,
                        ));
                    }
                    return Err(ScanError { col: i, kind: ParseErrKind::InvalidNumericDigit });
                }
            },
            ExecMode::NumEnd(ns) => {
                if c == ',' || c == ')' {
                    match exec_cleaned_number(line, ns, i) {
                        None => {
                            proof {
                                assert(scan_step(s, i as int, st0) == StepV::Fail(
                                    i as int,
                                    ParseErrKind::SignOnlyNumber,
                                ));
                            }
                            return Err(ScanError { col: i, kind: ParseErrKind::SignOnlyNumber });
                        },
                        Some(t) => {
                            if !lit {
                                let cell = Cell {
                                    value: CellValue::Number(t),
                                    string_backing: string_of_range(line, start, i),
                                };
                                proof {
                                    assert(scan_step(s, i as int, st0) == StepV::Done(cell@.value));
                                }
                                return Ok((cell, Some(c)));
                            } else {
                                let fv_cur = literal_formula(CellValue::Number(t));
                                                                if stack.len() == 0 {
                                    let cell = Cell {
                                        value: CellValue::Formula(fv_cur),
                                        string_backing: string_of_range(line, start, i),
                                    };
                                    proof {
                                        assert(scan_step(s, i as int, st0) == StepV::Done(
                                            cell@.value,
                                        ));
                                    }
                                    return Ok((cell, Some(c)));
                                } else if c == ',' {
                                    let _ = apply_formula_term(fv_cur, true, &mut stack);
                                    mode = ExecMode::FPre(false);
                                } else {
                                    let r0 = apply_formula_term(fv_cur, false, &mut stack);
                                    fv = r0.unwrap();
                                    mode = ExecMode::FDone;
                                }
                            }
                        },
                    }
                } else if c == ' ' || c == '\t' {
                } else {
                    proof {
                        assert(scan_step(s, i as int, st0) == StepV::Fail(
                            i as int,
                            ParseErrKind::TrailingCharactersAfterNumber,
                        ));
                    }
                    return Err(
                        ScanError { col: i, kind: ParseErrKind::TrailingCharactersAfterNumber },
                    );
                }
            },
            ExecMode::FPre(first) => {
                if c == ' ' || c == '\t' {
                } else if 'A' <= c && c <= 'Z' {
                    mode = ExecMode::FRef(i, None);
                } else if 'a' <= c && c <= 'z' {
                    mode = ExecMode::FFn(i);
                } else if ('0' <= c && c <= '9') || c == '-' || c == '+' {
                    lit = true;
                    mode = ExecMode::NumBody(i);
                } else if c == '"' {
                    acc = String::new();
                    lit = true;
                    mode = ExecMode::StrBody;
                } else if c == ')' && first && stack.len() > 0 {
                    let ghost old_stack = stack@;
                    let (name, args) = stack.pop().unwrap();
                    fv = Formula::FunctionCall(name, args);
                    mode = ExecMode::FDone;
                    proof {
                        assert(stack@ =~= old_stack.drop_last());
                        assert(stack_view(stack@) =~= stack_view(old_stack).drop_last());
                        assert(fv@ == FormulaV::FunctionCall(
                            stack_view(old_stack).last().name,
                            stack_view(old_stack).last().args,
                        ));
                    }
                } else {
                    proof {
                        assert(scan_step(s, i as int, st0) == StepV::Fail(
                            i as int,
                            ParseErrKind::InvalidFormulaCharacter,
                        ));
                    }
                    return Err(ScanError { col: i, kind: ParseErrKind::InvalidFormulaCharacter });
                }
            },
            ExecMode::FFn(fs) => {
                if 'a' <= c && c <= 'z' {
                } else if 'A' <= c && c <= 'Z' {
                    proof {
                        assert(scan_step(s, i as int, st0) == StepV::Fail(
                            i as int,
                            ParseErrKind::MixedCaseIdentifier,
                        ));
                    }
                    return Err(ScanError { col: i, kind: ParseErrKind::MixedCaseIdentifier });
                } else if c == '(' {
                    let name = string_of_range(line, fs, i);
                    let ghost old_stack = stack@;
                    stack.push((name, Vec::new()));
                    mode = ExecMode::FPre(true);
                    proof {
                        assert(view_formula_seq(Seq::<Formula>::empty())
                            =~= Seq::<FormulaV>::empty());
                        assert(stack_view(stack@) =~= stack_view(old_stack).push(
                            FrameV { name: s.subrange(fs as int, i as int), args: Seq::empty() },
                        ));
                    }
                } else {
                    proof {
                        assert(scan_step(s, i as int, st0) == StepV::Fail(
                            i as int,
                            ParseErrKind::ExpectedOpenParen,
                        ));
                    }
                    return Err(ScanError { col: i, kind: ParseErrKind::ExpectedOpenParen });
                }
            },
            ExecMode::FRef(rs, ds) => {
                if 'a' <= c && c <= 'z' {
                    proof {
                        assert(scan_step(s, i as int, st0) == StepV::Fail(
                            i as int,
                            ParseErrKind::MixedCaseIdentifier,
                        ));
                    }
                    return Err(ScanError { col: i, kind: ParseErrKind::MixedCaseIdentifier });
                } else if 'A' <= c && c <= 'Z' {
                    match ds {
                        None => {},
                        Some(_) => {
                            proof {
                                assert(scan_step(s, i as int, st0) == StepV::Fail(
                                    i as int,
                                    ParseErrKind::InvalidFormulaCharacter,
                                ));
                            }
                            return Err(
                                ScanError { col: i, kind: ParseErrKind::InvalidFormulaCharacter },
                            );
                        },
                    }
                } else if '0' <= c && c <= '9' {
                    match ds {
                        None => {
                            mode = ExecMode::FRef(rs, Some(i));
                        },
                        Some(_) => {},
                    }
                } else if c == ' ' || c == '\t' {
                    match ds {
                        None => {
                            proof {
                                assert(scan_step(s, i as int, st0) == StepV::Fail(
                                    i as int,
                                    ParseErrKind::InvalidNumber,
                                ));
                            }
                            return Err(ScanError { col: i, kind: ParseErrKind::InvalidNumber });
                        },
                        Some(d) => match decode_spans(line, rs, d, i) {
                            Err(CoordFromRefErr::InvalidLetter) => {
                                proof {
                                    assert(scan_step(s, i as int, st0) == StepV::Fail(
                                        rs as int,
                                        ParseErrKind::InvalidLetter,
                                    ));
                                }
                                return Err(ScanError { col: rs, kind: ParseErrKind::InvalidLetter });
                            },
                            Err(CoordFromRefErr::InvalidNumber) => {
                                proof {
                                    assert(scan_step(s, i as int, st0) == StepV::Fail(
                                        d as int,
                                        ParseErrKind::InvalidNumber,
                                    ));
                                }
                                return Err(ScanError { col: d, kind: ParseErrKind::InvalidNumber });
                            },
                            Ok(co) => {
                                fv = Formula::Reference(co);
                                mode = ExecMode::FDone;
                            },
                        },
                    }
                } else if c == ',' || c == ')' {
                    match ds {
                        None => {
                            proof {
                                assert(scan_step(s, i as int, st0) == StepV::Fail(
                                    i as int,
                                    ParseErrKind::InvalidNumber,
                                ));
                            }
                            return Err(ScanError { col: i, kind: ParseErrKind::InvalidNumber });
                        },
                        Some(d) => match decode_spans(line, rs, d, i) {
                            Err(CoordFromRefErr::InvalidLetter) => {
                                proof {
                                    assert(scan_step(s, i as int, st0) == StepV::Fail(
                                        rs as int,
                                        ParseErrKind::InvalidLetter,
                                    ));
                                }
                                return Err(ScanError { col: rs, kind: ParseErrKind::InvalidLetter });
                            },
                            Err(CoordFromRefErr::InvalidNumber) => {
                                proof {
                                    assert(scan_step(s, i as int, st0) == StepV::Fail(
                                        d as int,
                                        ParseErrKind::InvalidNumber,
                                    ));
                                }
                                return Err(ScanError { col: d, kind: ParseErrKind::InvalidNumber });
                            },
                            Ok(co) => {
                                let fv_cur = Formula::Reference(co);
                                                                if stack.len() == 0 {
                                    let cell = Cell {
                                        value: CellValue::Formula(fv_cur),
                                        string_backing: string_of_range(line, start, i),
                                    };
                                    proof {
                                        assert(scan_step(s, i as int, st0) == StepV::Done(
                                            cell@.value,
                                        ));
                                    }
                                    return Ok((cell, Some(c)));
                                } else if c == ',' {
                                    let _ = apply_formula_term(fv_cur, true, &mut stack);
                                    mode = ExecMode::FPre(false);
                                } else {
                                    let r0 = apply_formula_term(fv_cur, false, &mut stack);
                                    fv = r0.unwrap();
                                    mode = ExecMode::FDone;
                                }
                            },
                        },
                    }
                } else {
                    proof {
                        assert(scan_step(s, i as int, st0) == StepV::Fail(
                            i as int,
                            ParseErrKind::InvalidFormulaCharacter,
                        ));
                    }
                    return Err(ScanError { col: i, kind: ParseErrKind::InvalidFormulaCharacter });
                }
            },
            ExecMode::FDone => {
                if c == ' ' || c == '\t' {
                } else if c == ',' || c == ')' {
                    let fv_cur = fv;
                    fv = Formula::Literal(Box::new(CellValue::Empty));
                                        if stack.len() == 0 {
                        let cell = Cell {
                            value: CellValue::Formula(fv_cur),
                            string_backing: string_of_range(line, start, i),
                        };
                        proof {
                            assert(scan_step(s, i as int, st0) == StepV::Done(cell@.value));
                        }
                        return Ok((cell, Some(c)));
                    } else if c == ',' {
                        let _ = apply_formula_term(fv_cur, true, &mut stack);
                        mode = ExecMode::FPre(false);
                    } else {
                        let r0 = apply_formula_term(fv_cur, false, &mut stack);
                        fv = r0.unwrap();
                        mode = ExecMode::FDone;
                    }
                } else {
                    proof {
                        assert(scan_step(s, i as int, st0) == StepV::Fail(
                            i as int,
                            ParseErrKind::TrailingCharactersAfterFormula,
                        ));
                    }
                    return Err(
                        ScanError { col: i, kind: ParseErrKind::TrailingCharactersAfterFormula },
                    );
                }
            },
        }
        proof {
            let st1 = st_view(mode, acc@, lit, fv@, stack@);
            assert(scan_step(s, i as int, st0) == StepV::Next(st1));
            assert(scan_run(s, i as int, st0) == scan_run(s, i as int + 1, st1));
        }
        i = i + 1;
    }
    let ghost st0 = st_view(mode, acc@, lit, fv@, stack@);
    proof {
        assert(spec_scan(s, start as int) == scan_finish(s, st0));
    }
    match mode {
        ExecMode::Start => {
            let cell = Cell {
                value: CellValue::Empty,
                string_backing: string_of_range(line, start, len),
            };
            return Ok((cell, None));
        },
        ExecMode::StrBody => {
            return Err(ScanError { col: len, kind: ParseErrKind::UnterminatedString });
        },
        ExecMode::StrEsc => {
            return Err(ScanError { col: len, kind: ParseErrKind::UnterminatedString });
        },
        ExecMode::StrEnd => {
            let a2 = acc;
            if !lit {
                let cell = Cell {
                    value: CellValue::Text(a2),
                    string_backing: string_of_range(line, start, len),
                };
                return Ok((cell, None));
            } else {
                let fv_cur = literal_formula(CellValue::Text(a2));
                if stack.len() == 0 {
                    let cell = Cell {
                        value: CellValue::Formula(fv_cur),
                        string_backing: string_of_range(line, start, len),
                    };
                    return Ok((cell, None));
                } else {
                    return Err(ScanError { col: len, kind: ParseErrKind::UnclosedBracket });
                }
            }
        },
        ExecMode::NumBody(ns) => {
            match exec_cleaned_number(line, ns, len) {
                None => {
                    return Err(ScanError { col: len, kind: ParseErrKind::SignOnlyNumber });
                },
                Some(t) => {
                    if !lit {
                        let cell = Cell {
                            value: CellValue::Number(t),
                            string_backing: string_of_range(line, start, len),
                        };
                        return Ok((cell, None));
                    } else {
                        let fv_cur = literal_formula(CellValue::Number(t));
                        if stack.len() == 0 {
                            let cell = Cell {
                                value: CellValue::Formula(fv_cur),
                                string_backing: string_of_range(line, start, len),
                            };
                            return Ok((cell, None));
                        } else {
                            return Err(ScanError { col: len, kind: ParseErrKind::UnclosedBracket });
                        }
                    }
                },
            }
        },
        ExecMode::NumEnd(ns) => {
            match exec_cleaned_number(line, ns, len) {
                None => {
                    return Err(ScanError { col: len, kind: ParseErrKind::SignOnlyNumber });
                },
                Some(t) => {
                    if !lit {
                        let cell = Cell {
                            value: CellValue::Number(t),
                            string_backing: string_of_range(line, start, len),
                        };
                        return Ok((cell, None));
                    } else {
                        let fv_cur = literal_formula(CellValue::Number(t));
                        if stack.len() == 0 {
                            let cell = Cell {
                                value: CellValue::Formula(fv_cur),
                                string_backing: string_of_range(line, start, len),
                            };
                            return Ok((cell, None));
                        } else {
                            return Err(ScanError { col: len, kind: ParseErrKind::UnclosedBracket });
                        }
                    }
                },
            }
        },
        ExecMode::FPre(_) => {
            let fv_cur = literal_formula(CellValue::Empty);
            if stack.len() == 0 {
                let cell = Cell {
                    value: CellValue::Formula(fv_cur),
                    string_backing: string_of_range(line, start, len),
                };
                return Ok((cell, None));
            } else {
                return Err(ScanError { col: len, kind: ParseErrKind::UnclosedBracket });
            }
        },
        ExecMode::FFn(_) => {
            let fv_cur = literal_formula(CellValue::Empty);
            if stack.len() == 0 {
                let cell = Cell {
                    value: CellValue::Formula(fv_cur),
                    string_backing: string_of_range(line, start, len),
                };
                return Ok((cell, None));
            } else {
                return Err(ScanError { col: len, kind: ParseErrKind::UnclosedBracket });
            }
        },
        ExecMode::FRef(rs, ds) => {
            match ds {
                None => {
                    return Err(ScanError { col: len, kind: ParseErrKind::InvalidNumber });
                },
                Some(d) => match decode_spans(line, rs, d, len) {
                    Err(CoordFromRefErr::InvalidLetter) => {
                        return Err(ScanError { col: rs, kind: ParseErrKind::InvalidLetter });
                    },
                    Err(CoordFromRefErr::InvalidNumber) => {
                        return Err(ScanError { col: d, kind: ParseErrKind::InvalidNumber });
                    },
                    Ok(co) => {
                        let fv_cur = Formula::Reference(co);
                        if stack.len() == 0 {
                            let cell = Cell {
                                value: CellValue::Formula(fv_cur),
                                string_backing: string_of_range(line, start, len),
                            };
                            return Ok((cell, None));
                        } else {
                            return Err(ScanError { col: len, kind: ParseErrKind::UnclosedBracket });
                        }
                    },
                },
            }
        },
        ExecMode::FDone => {
            let fv_cur = fv;
            if stack.len() == 0 {
                let cell = Cell {
                    value: CellValue::Formula(fv_cur),
                    string_backing: string_of_range(line, start, len),
                };
                return Ok((cell, None));
            } else {
                return Err(ScanError { col: len, kind: ParseErrKind::UnclosedBracket });
            }
        },
    }
}


/// True of a formula tree that holds no evaluation-error value.
pub open spec fn formula_no_error(f: FormulaV) -> bool
    decreases f,
{
    match f {
        FormulaV::FunctionCall(_, args) => formulas_no_error(args),
        FormulaV::Reference(_) => true,
        FormulaV::Literal(b) => value_no_error(*b),
    }
}

/// True when no formula of the run holds an evaluation-error value.
pub open spec fn formulas_no_error(s: Seq<FormulaV>) -> bool
    decreases s,
{
    s.len() == 0 || (formula_no_error(s[0]) && formulas_no_error(s.subrange(1, s.len() as int)))
}

/// True of a cell value that holds no evaluation-error value.
pub open spec fn value_no_error(v: CellValueV) -> bool
    decreases v,
{
    match v {
        CellValueV::Error(_) => false,
        CellValueV::Formula(f) => formula_no_error(f),
        _ => true,
    }
}

/// A run of formulas is clean exactly when its parts are.
pub broadcast proof fn lemma_formulas_no_error_push(s: Seq<FormulaV>, f: FormulaV)
    ensures
        #[trigger] formulas_no_error(s.push(f)) <==> (formulas_no_error(s) && formula_no_error(f)),
    decreases s.len(),
{
    let t = s.push(f);
    assert(formulas_no_error(Seq::<FormulaV>::empty()));
    if s.len() == 0 {
        assert(t.subrange(1, t.len() as int) =~= Seq::<FormulaV>::empty());
        assert(t[0] == f);
        assert(formulas_no_error(t) == (formula_no_error(t[0]) && formulas_no_error(
            t.subrange(1, t.len() as int),
        )));
    } else {
        assert(t[0] == s[0]);
        assert(t.subrange(1, t.len() as int) =~= s.subrange(1, s.len() as int).push(f));
        lemma_formulas_no_error_push(s.subrange(1, s.len() as int), f);
        assert(formulas_no_error(t) == (formula_no_error(t[0]) && formulas_no_error(
            t.subrange(1, t.len() as int),
        )));
        assert(formulas_no_error(s) == (formula_no_error(s[0]) && formulas_no_error(
            s.subrange(1, s.len() as int),
        )));
    }
}

/// No open call holds an evaluation-error value among its arguments.
pub open spec fn frames_no_error(fs: Seq<FrameV>) -> bool {
    forall|k: int| 0 <= k < fs.len() ==> formulas_no_error((#[trigger] fs[k]).args)
}

/// Nothing the machine has built so far holds an evaluation-error value.
pub open spec fn st_no_error(st: StV) -> bool {
    frames_no_error(st.stack) && match st.mode {
        ModeV::FDone(fv) => formula_no_error(fv),
        _ => true,
    }
}

/// A clean formula value joining clean open calls leaves everything clean.
proof fn lemma_complete_formula_no_error(fv: FormulaV, c: char, st: StV)
    requires
        st_no_error(st),
        formula_no_error(fv),
    ensures
        match complete_formula(fv, c, st) {
            StepV::Next(st2) => st_no_error(st2),
            StepV::Done(v) => value_no_error(v),
            StepV::Fail(_, _) => true,
        },
{
    broadcast use lemma_formulas_no_error_push;

    if st.stack.len() == 0 {
        assert(value_no_error(CellValueV::Formula(fv)));
    } else if c == ',' {
        let k = st.stack.len() - 1;
        let fr = st.stack[k];
        let ns = st.stack.update(k, FrameV { name: fr.name, args: fr.args.push(fv) });
        assert(formulas_no_error(fr.args));
        assert forall|q: int| 0 <= q < ns.len() implies formulas_no_error(
            (#[trigger] ns[q]).args,
        ) by {
            if q != k {
                assert(ns[q] == st.stack[q]);
            }
        }
    } else {
        let fr = st.stack.last();
        assert(formulas_no_error(fr.args));
        assert(formulas_no_error(fr.args.push(fv)));
        assert(formula_no_error(FormulaV::FunctionCall(fr.name, fr.args.push(fv))));
        let ds = st.stack.drop_last();
        assert forall|q: int| 0 <= q < ds.len() implies formulas_no_error(
            (#[trigger] ds[q]).args,
        ) by {
            assert(ds[q] == st.stack[q]);
        }
    }
}

/// From a clean state the machine only ever yields clean values.
proof fn lemma_run_no_error(s: Seq<char>, i: int, st: StV)
    requires
        st_no_error(st),
    ensures
        match scan_run(s, i, st) {
            Ok(o) => value_no_error(o.value),
            Err(_) => true,
        },
    decreases s.len() - i,
{
    broadcast use lemma_formulas_no_error_push;

    if i >= s.len() {
        match st.mode {
            ModeV::FPre(_) => {
                assert(formula_no_error(FormulaV::Literal(Box::new(CellValueV::Empty))));
            },
            ModeV::FFn(_) => {
                assert(formula_no_error(FormulaV::Literal(Box::new(CellValueV::Empty))));
            },
            ModeV::StrEnd(acc) => {
                assert(formula_no_error(FormulaV::Literal(Box::new(CellValueV::Text(acc)))));
            },
            ModeV::NumBody(ns) => {
                match finalize_number(s, ns, s.len() as int) {
                    Ok(t) => {
                        assert(formula_no_error(
                            FormulaV::Literal(Box::new(CellValueV::Number(t))),
                        ));
                    },
                    Err(_) => {},
                }
            },
            ModeV::NumEnd(ns) => {
                match finalize_number(s, ns, s.len() as int) {
                    Ok(t) => {
                        assert(formula_no_error(
                            FormulaV::Literal(Box::new(CellValueV::Number(t))),
                        ));
                    },
                    Err(_) => {},
                }
            },
            _ => {},
        }
    } else {
        let c = s[i];
        match st.mode {
            ModeV::StrEnd(acc) => {
                if is_term_char(c) {
                    let fv = FormulaV::Literal(Box::new(CellValueV::Text(acc)));
                    assert(formula_no_error(fv));
                    lemma_complete_formula_no_error(fv, c, st);
                }
            },
            ModeV::NumBody(ns) => {
                if is_term_char(c) {
                    match finalize_number(s, ns, i) {
                        Ok(t) => {
                            let fv = FormulaV::Literal(Box::new(CellValueV::Number(t)));
                            assert(formula_no_error(fv));
                            lemma_complete_formula_no_error(fv, c, st);
                        },
                        Err(_) => {},
                    }
                }
            },
            ModeV::NumEnd(ns) => {
                if is_term_char(c) {
                    match finalize_number(s, ns, i) {
                        Ok(t) => {
                            let fv = FormulaV::Literal(Box::new(CellValueV::Number(t)));
                            assert(formula_no_error(fv));
                            lemma_complete_formula_no_error(fv, c, st);
                        },
                        Err(_) => {},
                    }
                }
            },
            ModeV::FPre(first) => {
                if c == ')' && first && st.stack.len() > 0 {
                    let fr = st.stack.last();
                    assert(formulas_no_error(fr.args));
                    assert(formula_no_error(FormulaV::FunctionCall(fr.name, fr.args)));
                    let ds = st.stack.drop_last();
                    assert forall|q: int| 0 <= q < ds.len() implies formulas_no_error(
                        (#[trigger] ds[q]).args,
                    ) by {
                        assert(ds[q] == st.stack[q]);
                    }
                }
            },
            ModeV::FFn(fs) => {
                if c == '(' {
                    let ns2 = st.stack.push(
                        FrameV { name: s.subrange(fs, i), args: Seq::empty() },
                    );
                    assert(formulas_no_error(Seq::<FormulaV>::empty()));
                    assert forall|q: int| 0 <= q < ns2.len() implies formulas_no_error(
                        (#[trigger] ns2[q]).args,
                    ) by {
                        if q < st.stack.len() {
                            assert(ns2[q] == st.stack[q]);
                        } else {
                            assert(ns2[q].args == Seq::<FormulaV>::empty());
                        }
                    }
                }
            },
            ModeV::FRef(rs, ds) => {
                if is_ws_char(c) || is_term_char(c) {
                    match resolve_ref(s, rs, ds, i, i) {
                        Ok(co) => {
                            assert(formula_no_error(FormulaV::Reference(co)));
                            if is_term_char(c) {
                                lemma_complete_formula_no_error(FormulaV::Reference(co), c, st);
                            }
                        },
                        Err(_) => {},
                    }
                }
            },
            ModeV::FDone(fv) => {
                if is_term_char(c) {
                    lemma_complete_formula_no_error(fv, c, st);
                }
            },
            _ => {},
        }
        match scan_step(s, i, st) {
            StepV::Next(st2) => {
                assert(st_no_error(st2));
                lemma_run_no_error(s, i + 1, st2);
            },
            StepV::Done(v) => {
                assert(value_no_error(v));
            },
            StepV::Fail(_, _) => {},
        }
    }
}

/// The scanner never yields an evaluation-error value: what parsing
/// produces is only empty, text, number and formula cells.
pub proof fn lemma_scan_never_error(s: Seq<char>, start: int)
    ensures
        match spec_scan(s, start) {
            Ok(o) => value_no_error(o.value),
            Err(_) => true,
        },
{
    lemma_run_no_error(s, start, init_state());
}

} // verus!
