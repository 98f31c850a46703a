//! An OpenQASM 3 reader.
//!
//! The text is read as a sequence of statements separated by blanks
//! (whitespace and `//` line comments):
//!
//! ```text
//! statement  := "OPENQASM" ... ";" | "include" ... ";" | "qubit" ... ";" | "bit" ... ";"
//!             | "gate" ... "}"
//!             | "measure" qubit "->" register ";"
//!             | register "=" "measure" qubit ";"
//!             | name [ "(" angle { "," angle } ")" ] qubit { "," qubit } ";"
//! qubit      := "$" uint | register
//! register   := name "[" uint "]"
//! angle      := "-" atom [ "/" float ] | atom "/" float | float "*" "pi" | atom
//! atom       := "pi" | float
//! float      := digit+ [ "." digit* ]
//! ```
//!
//! Declarations are skipped. `h`, `x`, `y`, `z` on one qubit, `sx` on one
//! qubit (a rotation about X by pi/2), `rx`, `ry`, `rz` with one angle on one
//! qubit, `cx`, `cz`, `swap` on two qubits give their instructions; `id` on
//! one qubit and `ecr` on two qubits are dropped; any other application is a
//! custom gate named by its name, on its qubits, with an empty body.
//! Blanks may stand between any two tokens.

use vstd::prelude::*;
use vstd::string::StrSliceExecFns;
use crate::instruction::i_struct::{all_below, Angle, AngleAtom, AngleModel, AtomModel, IStruct, Op};
use crate::text::{chars_of, decimal, push_decimal, push_str};
use crate::transpiler::gate_decomposer::HALF_PI_BITS;

verus! {

broadcast use vstd::string::group_string_axioms;

/// The OpenQASM 3 reader of this module; `parse_qasm` and `parse_qasm_full`
/// read with its grammar.
pub struct QasmParser;

/// A QASM reading error.
#[derive(Debug)]
pub enum QasmError {
    /// The text does not follow the grammar.
    ParseError(String),
    /// A statement of the grammar that has no instruction.
    Unsupported(String),
}

/// The model of a reading error.
pub enum QasmErrorModel {
    ParseError(Seq<char>),
    Unsupported(Seq<char>),
}

impl View for QasmError {
    type V = QasmErrorModel;

    open spec fn view(&self) -> QasmErrorModel {
        match self {
            QasmError::ParseError(s) => QasmErrorModel::ParseError(s@),
            QasmError::Unsupported(s) => QasmErrorModel::Unsupported(s@),
        }
    }
}

/// The text of a reading error.
pub open spec fn qasm_error_text(e: QasmErrorModel) -> Seq<char> {
    match e {
        QasmErrorModel::ParseError(s) => "Erreur QASM : "@ + s,
        QasmErrorModel::Unsupported(s) => "Non supporté : "@ + s,
    }
}

impl QasmError {
    /// The text of the error: `Erreur QASM : ...` or `Non supporté : ...`.
    pub fn describe(&self) -> (r: String)
        ensures
            r@ == qasm_error_text(self@),
    {
        let mut m = String::new();
        match self {
            QasmError::ParseError(s) => {
                push_str(&mut m, "Erreur QASM : ");
                push_str(&mut m, s.as_str());
            },
            QasmError::Unsupported(s) => {
                push_str(&mut m, "Non supporté : ");
                push_str(&mut m, s.as_str());
            },
        }
        m
    }
}

/// An instruction as it is read from text.
pub enum ParsedOp {
    H(usize),
    X(usize),
    Y(usize),
    Z(usize),
    RX { angle: AngleModel, target: usize },
    RY { angle: AngleModel, target: usize },
    RZ { angle: AngleModel, target: usize },
    CX { control: usize, target: usize },
    CZ { control: usize, target: usize },
    Swap { qbit1: usize, qbit2: usize },
    Measure { qubit: usize, clbit: usize },
    Custom { label: Seq<char>, position: Seq<usize> },
}

/// The instruction `op` is the one read as `p`.
pub open spec fn read_as(op: Op, p: ParsedOp) -> bool {
    match p {
        ParsedOp::H(q) => op == Op::H(q),
        ParsedOp::X(q) => op == Op::X(q),
        ParsedOp::Y(q) => op == Op::Y(q),
        ParsedOp::Z(q) => op == Op::Z(q),
        ParsedOp::RX { angle, target } => op matches Op::RX { angle: a, target: t } && a.model() == angle && t
            == target,
        ParsedOp::RY { angle, target } => op matches Op::RY { angle: a, target: t } && a.model() == angle && t
            == target,
        ParsedOp::RZ { angle, target } => op matches Op::RZ { angle: a, target: t } && a.model() == angle && t
            == target,
        ParsedOp::CX { control, target } => op == Op::CX { control, target },
        ParsedOp::CZ { control, target } => op == Op::CZ { control, target },
        ParsedOp::Swap { qbit1, qbit2 } => op == Op::Swap { qbit1, qbit2 },
        ParsedOp::Measure { qubit, clbit } => op == Op::Measure { qubits: seq![qubit], clbits: seq![clbit] },
        ParsedOp::Custom { label, position } => op == Op::Gate { position, body: Seq::empty(), label },
    }
}

/// The instructions `ops` are those read as `ps`, in order.
pub open spec fn all_read_as(ops: Seq<Op>, ps: Seq<ParsedOp>) -> bool {
    ops.len() == ps.len() && forall|i: int| 0 <= i < ops.len() ==> #[trigger] read_as(ops[i], ps[i])
}

/// The qubits that an instruction names at top level.
pub open spec fn op_indices(op: Op) -> Seq<usize> {
    match op {
        Op::H(q) => seq![q],
        Op::X(q) => seq![q],
        Op::Y(q) => seq![q],
        Op::Z(q) => seq![q],
        Op::RX { target, .. } => seq![target],
        Op::RY { target, .. } => seq![target],
        Op::RZ { target, .. } => seq![target],
        Op::CX { control, target } => seq![control, target],
        Op::CZ { control, target } => seq![control, target],
        Op::Swap { qbit1, qbit2 } => seq![qbit1, qbit2],
        Op::Measure { qubits, .. } => qubits,
        Op::Controlled { controls, target, .. } => controls.push(target),
        Op::Gate { position, .. } => position,
        Op::U { target, .. } => target,
        Op::Any => Seq::empty(),
    }
}

/// The classical bits that an instruction names.
pub open spec fn op_clbits(op: Op) -> Seq<usize> {
    match op {
        Op::Measure { clbits, .. } => clbits,
        _ => Seq::empty(),
    }
}

/// Every qubit and classical bit the instruction names is below `usize::MAX`.
pub open spec fn indices_small(op: Op) -> bool {
    all_below(op_indices(op), usize::MAX as nat) && all_below(op_clbits(op), usize::MAX as nat)
}

/// The largest element of `s`, zero when it is empty.
pub open spec fn max_in(s: Seq<usize>) -> nat
    decreases s.len(),
{
    if s.len() == 0 {
        0
    } else {
        let m = max_in(s.drop_last());
        if s.last() > m {
            s.last() as nat
        } else {
            m
        }
    }
}

/// The largest qubit that the instructions name, zero when they name none.
pub open spec fn max_qubit(ops: Seq<Op>) -> nat
    decreases ops.len(),
{
    if ops.len() == 0 {
        0
    } else {
        let m = max_qubit(ops.drop_last());
        let k = max_in(op_indices(ops.last()));
        if k > m {
            k
        } else {
            m
        }
    }
}

/// The largest classical bit that the instructions measure into, zero when
/// there is none.
pub open spec fn max_clbit(ops: Seq<Op>) -> nat
    decreases ops.len(),
{
    if ops.len() == 0 {
        0
    } else {
        let m = max_clbit(ops.drop_last());
        let k = max_in(op_clbits(ops.last()));
        if k > m {
            k
        } else {
            m
        }
    }
}

// ----- characters

pub open spec fn is_space(c: char) -> bool {
    c == ' ' || c == '\t' || c == '\n' || c == '\r'
}

pub open spec fn is_digit(c: char) -> bool {
    '0' <= c && c <= '9'
}

pub open spec fn is_ident_start(c: char) -> bool {
    ('a' <= c && c <= 'z') || ('A' <= c && c <= 'Z') || c == '_'
}

pub open spec fn is_ident_char(c: char) -> bool {
    is_ident_start(c) || is_digit(c)
}

/// The first position from `i` on that is not whitespace.
pub open spec fn skip_spaces(s: Seq<char>, i: int) -> int
    decreases s.len() - i,
{
    if 0 <= i < s.len() && is_space(s[i]) {
        skip_spaces(s, i + 1)
    } else {
        i
    }
}

/// The first position from `i` on that is neither whitespace nor inside a
/// `//` comment (`in_comment` tells whether `i` is inside one).
pub open spec fn skip_blank(s: Seq<char>, i: int, in_comment: bool) -> int
    decreases s.len() - i,
{
    if 0 <= i < s.len() {
        if in_comment {
            skip_blank(s, i + 1, s[i] != '\n')
        } else if is_space(s[i]) {
            skip_blank(s, i + 1, false)
        } else if i + 1 < s.len() && s[i] == '/' && s[i + 1] == '/' {
            skip_blank(s, i + 2, true)
        } else {
            i
        }
    } else {
        i
    }
}

/// The end of the run of digits that starts at `i`.
pub open spec fn scan_digits(s: Seq<char>, i: int) -> int
    decreases s.len() - i,
{
    if 0 <= i < s.len() && is_digit(s[i]) {
        scan_digits(s, i + 1)
    } else {
        i
    }
}

/// The end of the run of identifier characters that starts at `i`.
pub open spec fn scan_ident(s: Seq<char>, i: int) -> int
    decreases s.len() - i,
{
    if 0 <= i < s.len() && is_ident_char(s[i]) {
        scan_ident(s, i + 1)
    } else {
        i
    }
}

/// The first position from `i` on that holds `c`, or the length.
pub open spec fn find(s: Seq<char>, i: int, c: char) -> int
    decreases s.len() - i,
{
    if 0 <= i < s.len() && s[i] != c {
        find(s, i + 1, c)
    } else {
        i
    }
}

/// The value of the decimal digits `s[i..j]`.
pub open spec fn digits_value(s: Seq<char>, i: int, j: int) -> nat
    decreases j - i,
{
    if j <= i {
        0
    } else {
        digits_value(s, i, j - 1) * 10 + ((s[j - 1] as nat) - ('0' as nat)) as nat
    }
}

// ----- tokens

/// An unsigned integer below `usize::MAX` at `i`, and the position after it.
pub open spec fn p_index(s: Seq<char>, i: int) -> Option<(usize, int)> {
    let j = scan_digits(s, i);
    if 0 <= i < j && digits_value(s, i, j) < usize::MAX {
        Some((digits_value(s, i, j) as usize, j))
    } else {
        None
    }
}

/// A register element `name[n]` at `i`.
pub open spec fn p_register(s: Seq<char>, i: int) -> Option<(usize, int)> {
    if 0 <= i < s.len() && is_ident_start(s[i]) {
        let k = skip_spaces(s, scan_ident(s, i));
        if k < s.len() && s[k] == '[' {
            match p_index(s, skip_spaces(s, k + 1)) {
                Some((v, k2)) => {
                    let k3 = skip_spaces(s, k2);
                    if k3 < s.len() && s[k3] == ']' {
                        Some((v, k3 + 1))
                    } else {
                        None
                    }
                },
                None => None,
            }
        } else {
            None
        }
    } else {
        None
    }
}

/// A qubit `$n` or `name[n]` at `i`.
pub open spec fn p_qubit(s: Seq<char>, i: int) -> Option<(usize, int)> {
    if 0 <= i < s.len() && s[i] == '$' {
        p_index(s, i + 1)
    } else {
        p_register(s, i)
    }
}

/// A decimal literal at `i`: its text and the position after it.
pub open spec fn p_float(s: Seq<char>, i: int) -> Option<(Seq<char>, int)> {
    let j = scan_digits(s, i);
    if 0 <= i < j {
        if j < s.len() && s[j] == '.' {
            let k = scan_digits(s, j + 1);
            Some((s.subrange(i, k), k))
        } else {
            Some((s.subrange(i, j), j))
        }
    } else {
        None
    }
}

/// `pi` stands at `i`, not followed by an identifier character.
pub open spec fn pi_at(s: Seq<char>, i: int) -> bool {
    0 <= i && i + 1 < s.len() && s[i] == 'p' && s[i + 1] == 'i' && !(i + 2 < s.len() && is_ident_char(s[i + 2]))
}

/// An operand at `i`.
pub open spec fn p_atom(s: Seq<char>, i: int) -> Option<(AtomModel, int)> {
    if pi_at(s, i) {
        Some((AtomModel::Pi, i + 2))
    } else {
        match p_float(s, i) {
            Some((f, k)) => Some((AtomModel::Number(f), k)),
            None => None,
        }
    }
}

/// The angle of a lone operand.
pub open spec fn atom_angle(a: AtomModel) -> AngleModel {
    match a {
        AtomModel::Pi => AngleModel::Pi,
        AtomModel::Number(f) => AngleModel::Number(f),
    }
}

/// The angle written with an optional sign, the operand `a`, an optional
/// second factor `b` and an optional divisor `d`.
pub open spec fn make_angle(neg: bool, a: AtomModel, b: Option<AtomModel>, d: Option<Seq<char>>) -> AngleModel {
    match (b, d) {
        (None, None) => if neg {
            AngleModel::Neg(a)
        } else {
            atom_angle(a)
        },
        (None, Some(d)) => if neg {
            AngleModel::NegDiv(a, d)
        } else {
            AngleModel::Div(a, d)
        },
        (Some(b), None) => if neg {
            AngleModel::NegTimes(a, b)
        } else {
            AngleModel::Times(a, b)
        },
        (Some(b), Some(d)) => if neg {
            AngleModel::NegTimesDiv(a, b, d)
        } else {
            AngleModel::TimesDiv(a, b, d)
        },
    }
}

/// An operand at `j`, optionally multiplied by a second one.
pub open spec fn p_product(s: Seq<char>, j: int) -> Option<(AtomModel, Option<AtomModel>, int)> {
    match p_atom(s, j) {
        Some((a, k)) => {
            let k2 = skip_spaces(s, k);
            if k2 < s.len() && s[k2] == '*' {
                match p_atom(s, skip_spaces(s, k2 + 1)) {
                    Some((b, k3)) => Some((a, Some(b), k3)),
                    None => None,
                }
            } else {
                Some((a, None, k))
            }
        },
        None => None,
    }
}

/// An optional `/ divisor` after `k`.
pub open spec fn p_divisor(s: Seq<char>, k: int) -> Option<(Option<Seq<char>>, int)> {
    let k2 = skip_spaces(s, k);
    if k2 < s.len() && s[k2] == '/' {
        match p_float(s, skip_spaces(s, k2 + 1)) {
            Some((d, k3)) => Some((Some(d), k3)),
            None => None,
        }
    } else {
        Some((None, k))
    }
}

/// An angle expression at `i`: `[-] a [* b] [/ d]`, where `a` and `b` are
/// `pi` or decimal literals and `d` a decimal literal (`pi`, `3.14`,
/// `-pi/2`, `pi*2`, `2*pi/3`).
pub open spec fn p_angle(s: Seq<char>, i: int) -> Option<(AngleModel, int)> {
    let neg = 0 <= i < s.len() && s[i] == '-';
    let j = if neg {
        skip_spaces(s, i + 1)
    } else {
        i
    };
    match p_product(s, j) {
        Some((a, b, k)) => match p_divisor(s, k) {
            Some((d, k4)) => Some((make_angle(neg, a, b, d), k4)),
            None => None,
        },
        None => None,
    }
}

/// A comma-separated list of angles at `i`.
pub open spec fn p_angles(s: Seq<char>, i: int) -> Option<(Seq<AngleModel>, int)>
    decreases s.len() - i,
{
    match p_angle(s, i) {
        Some((a, k)) => {
            let k2 = skip_spaces(s, k);
            if k2 < s.len() && s[k2] == ',' && i < skip_spaces(s, k2 + 1) <= s.len() {
                match p_angles(s, skip_spaces(s, k2 + 1)) {
                    Some((rest, k3)) => Some((seq![a] + rest, k3)),
                    None => None,
                }
            } else {
                Some((seq![a], k))
            }
        },
        None => None,
    }
}

/// A comma-separated list of qubits at `i`.
pub open spec fn p_qubits(s: Seq<char>, i: int) -> Option<(Seq<usize>, int)>
    decreases s.len() - i,
{
    match p_qubit(s, i) {
        Some((q, k)) => {
            let k2 = skip_spaces(s, k);
            if k2 < s.len() && s[k2] == ',' && i < skip_spaces(s, k2 + 1) <= s.len() {
                match p_qubits(s, skip_spaces(s, k2 + 1)) {
                    Some((rest, k3)) => Some((seq![q] + rest, k3)),
                    None => None,
                }
            } else {
                Some((seq![q], k))
            }
        },
        None => None,
    }
}

/// The optional parameter list at `i`: none when no `(` stands there.
pub open spec fn p_params(s: Seq<char>, i: int) -> Option<(Seq<AngleModel>, int)> {
    if 0 <= i < s.len() && s[i] == '(' {
        match p_angles(s, skip_spaces(s, i + 1)) {
            Some((a, k)) => {
                let k2 = skip_spaces(s, k);
                if k2 < s.len() && s[k2] == ')' {
                    Some((a, k2 + 1))
                } else {
                    None
                }
            },
            None => None,
        }
    } else {
        Some((Seq::empty(), i))
    }
}

/// The instruction that an application of `name` with these angles to these
/// qubits gives, if any.
pub open spec fn classify(name: Seq<char>, angles: Seq<AngleModel>, qs: Seq<usize>) -> Option<ParsedOp> {
    if angles.len() == 0 && qs.len() == 1 && name == "h"@ {
        Some(ParsedOp::H(qs[0]))
    } else if angles.len() == 0 && qs.len() == 1 && name == "x"@ {
        Some(ParsedOp::X(qs[0]))
    } else if angles.len() == 0 && qs.len() == 1 && name == "y"@ {
        Some(ParsedOp::Y(qs[0]))
    } else if angles.len() == 0 && qs.len() == 1 && name == "z"@ {
        Some(ParsedOp::Z(qs[0]))
    } else if angles.len() == 0 && qs.len() == 1 && name == "sx"@ {
        Some(ParsedOp::RX { angle: AngleModel::Radians(HALF_PI_BITS), target: qs[0] })
    } else if angles.len() == 0 && qs.len() == 1 && name == "id"@ {
        None
    } else if angles.len() == 1 && qs.len() == 1 && name == "rx"@ {
        Some(ParsedOp::RX { angle: angles[0], target: qs[0] })
    } else if angles.len() == 1 && qs.len() == 1 && name == "ry"@ {
        Some(ParsedOp::RY { angle: angles[0], target: qs[0] })
    } else if angles.len() == 1 && qs.len() == 1 && name == "rz"@ {
        Some(ParsedOp::RZ { angle: angles[0], target: qs[0] })
    } else if angles.len() == 0 && qs.len() == 2 && name == "cx"@ {
        Some(ParsedOp::CX { control: qs[0], target: qs[1] })
    } else if angles.len() == 0 && qs.len() == 2 && name == "cz"@ {
        Some(ParsedOp::CZ { control: qs[0], target: qs[1] })
    } else if angles.len() == 0 && qs.len() == 2 && name == "swap"@ {
        Some(ParsedOp::Swap { qbit1: qs[0], qbit2: qs[1] })
    } else if angles.len() == 0 && qs.len() == 2 && name == "ecr"@ {
        None
    } else {
        Some(ParsedOp::Custom { label: name, position: qs })
    }
}

/// The error for a statement at `j` that does not follow the grammar.
pub open spec fn syntax_error(j: int) -> QasmErrorModel {
    QasmErrorModel::ParseError("invalid statement at character "@ + decimal(j as nat))
}

/// A measurement `q -> c;` whose qubit starts at `i`.
pub open spec fn p_measure_arrow(s: Seq<char>, i: int) -> Option<(ParsedOp, int)> {
    match p_qubit(s, i) {
        Some((q, k)) => {
            let k2 = skip_spaces(s, k);
            if k2 < s.len() && k2 + 1 < s.len() && s[k2] == '-' && s[k2 + 1] == '>' {
                match p_register(s, skip_spaces(s, k2 + 2)) {
                    Some((c, k3)) => {
                        let k4 = skip_spaces(s, k3);
                        if k4 < s.len() && s[k4] == ';' {
                            Some((ParsedOp::Measure { qubit: q, clbit: c }, k4 + 1))
                        } else {
                            None
                        }
                    },
                    None => None,
                }
            } else {
                None
            }
        },
        None => None,
    }
}

/// An application `name(angles) qubits;` whose name ends at `w`.
pub open spec fn p_application(s: Seq<char>, j: int, w: int) -> Option<(Option<ParsedOp>, int)> {
    match p_params(s, skip_spaces(s, w)) {
        Some((angles, k)) => match p_qubits(s, skip_spaces(s, k)) {
            Some((qs, k2)) => {
                let k3 = skip_spaces(s, k2);
                if k3 < s.len() && s[k3] == ';' {
                    Some((classify(s.subrange(j, w), angles, qs), k3 + 1))
                } else {
                    None
                }
            },
            None => None,
        },
        None => None,
    }
}

/// The statement that starts at `j`: the instruction it gives, if any, and
/// the position after it.
#[verifier::opaque]
pub open spec fn p_statement(s: Seq<char>, j: int) -> Result<(Option<ParsedOp>, int), QasmErrorModel> {
    if !(0 <= j < s.len() && is_ident_start(s[j])) {
        Err(syntax_error(j))
    } else {
        let w = scan_ident(s, j);
        let word = s.subrange(j, w);
        if word == "OPENQASM"@ || word == "include"@ || word == "qubit"@ || word == "bit"@ {
            let k = find(s, w, ';');
            if k < s.len() {
                Ok((None, k + 1))
            } else {
                Err(syntax_error(j))
            }
        } else if word == "gate"@ {
            let k = find(s, w, '}');
            if k < s.len() {
                Ok((None, k + 1))
            } else {
                Err(syntax_error(j))
            }
        } else if word == "measure"@ {
            match p_measure_arrow(s, skip_spaces(s, w)) {
                Some((m, k)) => Ok((Some(m), k)),
                None => Err(syntax_error(j)),
            }
        } else {
            let p = skip_spaces(s, w);
            if p < s.len() && s[p] == '[' {
                match p_register(s, j) {
                    Some((c, k)) => {
                        let k2 = skip_spaces(s, k);
                        if k2 < s.len() && s[k2] == '=' {
                            let k3 = skip_spaces(s, k2 + 1);
                            let w2 = scan_ident(s, k3);
                            if s.subrange(k3, w2) == "measure"@ {
                                match p_qubit(s, skip_spaces(s, w2)) {
                                    Some((q, k4)) => {
                                        let k5 = skip_spaces(s, k4);
                                        if k5 < s.len() && s[k5] == ';' {
                                            Ok((Some(ParsedOp::Measure { qubit: q, clbit: c }), k5 + 1))
                                        } else {
                                            Err(syntax_error(j))
                                        }
                                    },
                                    None => Err(syntax_error(j)),
                                }
                            } else {
                                Err(QasmErrorModel::Unsupported("classical assignment"@))
                            }
                        } else {
                            Err(syntax_error(j))
                        }
                    },
                    None => Err(syntax_error(j)),
                }
            } else {
                match p_application(s, j, w) {
                    Some((o, k)) => Ok((o, k)),
                    None => Err(syntax_error(j)),
                }
            }
        }
    }
}

/// `o` before `rest`, when there is one.
pub open spec fn prepend(o: Option<ParsedOp>, rest: Seq<ParsedOp>) -> Seq<ParsedOp> {
    match o {
        Some(p) => seq![p] + rest,
        None => rest,
    }
}

/// The instructions read from position `i` on.
pub open spec fn p_program(s: Seq<char>, i: int) -> Result<Seq<ParsedOp>, QasmErrorModel>
    decreases s.len() - i,
{
    let j = skip_blank(s, i, false);
    if !(0 <= i <= j < s.len()) {
        Ok(Seq::empty())
    } else {
        match p_statement(s, j) {
            Err(e) => Err(e),
            Ok((o, k)) => if j < k <= s.len() {
                match p_program(s, k) {
                    Ok(rest) => Ok(prepend(o, rest)),
                    Err(e) => Err(e),
                }
            } else {
                Err(syntax_error(j))
            },
        }
    }
}

/// The instructions read from a whole text.
pub open spec fn read_program(s: Seq<char>) -> Result<Seq<ParsedOp>, QasmErrorModel> {
    p_program(s, 0)
}


// ----- reading

fn space(c: char) -> (r: bool)
    ensures
        r == is_space(c),
{
    c == ' ' || c == '\t' || c == '\n' || c == '\r'
}

fn digit(c: char) -> (r: bool)
    ensures
        r == is_digit(c),
{
    '0' <= c && c <= '9'
}

fn ident_start(c: char) -> (r: bool)
    ensures
        r == is_ident_start(c),
{
    ('a' <= c && c <= 'z') || ('A' <= c && c <= 'Z') || c == '_'
}

fn ident_char(c: char) -> (r: bool)
    ensures
        r == is_ident_char(c),
{
    ident_start(c) || digit(c)
}

fn skip_spaces_at(s: &Vec<char>, i: usize) -> (r: usize)
    requires
        i <= s@.len(),
    ensures
        r == skip_spaces(s@, i as int),
        i <= r <= s@.len(),
{
    let mut k = i;
    while k < s.len() && space(s[k])
        invariant
            i <= k <= s@.len(),
            skip_spaces(s@, k as int) == skip_spaces(s@, i as int),
        decreases s@.len() - k,
    {
        k += 1;
    }
    k
}

fn skip_blank_at(s: &Vec<char>, i: usize) -> (r: usize)
    requires
        i <= s@.len(),
    ensures
        r == skip_blank(s@, i as int, false),
        i <= r <= s@.len(),
{
    let mut k = i;
    let mut in_comment = false;
    while k < s.len()
        invariant
            i <= k <= s@.len(),
            skip_blank(s@, k as int, in_comment) == skip_blank(s@, i as int, false),
        decreases s@.len() - k,
    {
        let c = s[k];
        if in_comment {
            in_comment = c != '\n';
            k += 1;
        } else if space(c) {
            k += 1;
        } else if k + 1 < s.len() && c == '/' && s[k + 1] == '/' {
            in_comment = true;
            k += 2;
        } else {
            return k;
        }
    }
    k
}

fn scan_digits_at(s: &Vec<char>, i: usize) -> (r: usize)
    requires
        i <= s@.len(),
    ensures
        r == scan_digits(s@, i as int),
        i <= r <= s@.len(),
{
    let mut k = i;
    while k < s.len() && digit(s[k])
        invariant
            i <= k <= s@.len(),
            scan_digits(s@, k as int) == scan_digits(s@, i as int),
        decreases s@.len() - k,
    {
        k += 1;
    }
    k
}

fn scan_ident_at(s: &Vec<char>, i: usize) -> (r: usize)
    requires
        i <= s@.len(),
    ensures
        r == scan_ident(s@, i as int),
        i <= r <= s@.len(),
{
    let mut k = i;
    while k < s.len() && ident_char(s[k])
        invariant
            i <= k <= s@.len(),
            scan_ident(s@, k as int) == scan_ident(s@, i as int),
        decreases s@.len() - k,
    {
        k += 1;
    }
    k
}

fn find_at(s: &Vec<char>, i: usize, c: char) -> (r: usize)
    requires
        i <= s@.len(),
    ensures
        r == find(s@, i as int, c),
        i <= r <= s@.len(),
{
    let mut k = i;
    while k < s.len() && s[k] != c
        invariant
            i <= k <= s@.len(),
            find(s@, k as int, c) == find(s@, i as int, c),
        decreases s@.len() - k,
    {
        k += 1;
    }
    k
}

/// Whether `s[i..j]` spells `w`.
fn word_is(s: &Vec<char>, i: usize, j: usize, w: &str) -> (r: bool)
    requires
        i <= j <= s@.len(),
    ensures
        r == (s@.subrange(i as int, j as int) == w@),
{
    let n = w.unicode_len();
    if j - i != n {
        assert(s@.subrange(i as int, j as int).len() != w@.len());
        return false;
    }
    let mut k: usize = 0;
    while k < n
        invariant
            k <= n,
            n == w@.len(),
            j - i == n,
            i <= j <= s@.len(),
            forall|m: int| 0 <= m < k ==> s@[i + m] == w@[m],
        decreases n - k,
    {
        if s[i + k] != w.get_char(k) {
            assert(s@.subrange(i as int, j as int)[k as int] != w@[k as int]);
            return false;
        }
        k += 1;
    }
    assert(s@.subrange(i as int, j as int) =~= w@);
    true
}

/// The characters `s[i..j]` as a string.
fn text_of(s: &Vec<char>, i: usize, j: usize) -> (r: String)
    requires
        i <= j <= s@.len(),
    ensures
        r@ == s@.subrange(i as int, j as int),
{
    let mut out = String::new();
    let mut k = i;
    while k < j
        invariant
            i <= k <= j,
            j <= s@.len(),
            out@ == s@.subrange(i as int, k as int),
        decreases j - k,
    {
        crate::text::push_char(&mut out, s[k]);
        k += 1;
        assert(out@ =~= s@.subrange(i as int, k as int));
    }
    out
}

/// `r` is the optional result `spec` with exec positions.
pub open spec fn same_pos<T>(r: Option<(T, usize)>, spec: Option<(T, int)>) -> bool {
    match r {
        Some((v, k)) => spec == Some((v, k as int)),
        None => spec is None,
    }
}

/// The characters from `i` to the end of its run of digits are digits.
proof fn lemma_scan_digits(s: Seq<char>, i: int)
    requires
        0 <= i <= s.len(),
    ensures
        i <= scan_digits(s, i) <= s.len(),
        forall|m: int| i <= m < scan_digits(s, i) ==> is_digit(#[trigger] s[m]),
    decreases s.len() - i,
{
    if i < s.len() && is_digit(s[i]) {
        lemma_scan_digits(s, i + 1);
    }
}

fn read_index(s: &Vec<char>, i: usize) -> (r: Option<(usize, usize)>)
    requires
        i <= s@.len(),
    ensures
        same_pos(r, p_index(s@, i as int)),
        r matches Some((_, k)) ==> i < k <= s@.len(),
{
    let j = scan_digits_at(s, i);
    if j == i {
        return None;
    }
    proof {
        lemma_scan_digits(s@, i as int);
    }
    let mut v: u128 = 0;
    let mut big = false;
    let mut k = i;
    while k < j
        invariant
            i <= k <= j,
            j == scan_digits(s@, i as int),
            j <= s@.len(),
            forall|m: int| i <= m < j ==> is_digit(#[trigger] s@[m]),
            big ==> digits_value(s@, i as int, k as int) >= usize::MAX,
            !big ==> v == digits_value(s@, i as int, k as int) && v < usize::MAX,
        decreases j - k,
    {
        assert(is_digit(s@[k as int]));
        let d = (s[k] as u32 - '0' as u32) as u128;
        if !big {
            let nv = v * 10 + d;
            if nv >= usize::MAX as u128 {
                big = true;
            } else {
                v = nv;
            }
        }
        k += 1;
    }
    if big {
        None
    } else {
        Some((v as usize, j))
    }
}

fn read_register(s: &Vec<char>, i: usize) -> (r: Option<(usize, usize)>)
    requires
        i <= s@.len(),
    ensures
        r matches Some((v, _)) ==> v < usize::MAX,
        same_pos(r, p_register(s@, i as int)),
        r matches Some((_, k)) ==> i < k <= s@.len(),
{
    if !(i < s.len() && ident_start(s[i])) {
        return None;
    }
    let k = skip_spaces_at(s, scan_ident_at(s, i));
    if !(k < s.len() && s[k] == '[') {
        return None;
    }
    match read_index(s, skip_spaces_at(s, k + 1)) {
        Some((v, k2)) => {
            let k3 = skip_spaces_at(s, k2);
            if k3 < s.len() && s[k3] == ']' {
                Some((v, k3 + 1))
            } else {
                None
            }
        },
        None => None,
    }
}

fn read_qubit(s: &Vec<char>, i: usize) -> (r: Option<(usize, usize)>)
    requires
        i <= s@.len(),
    ensures
        r matches Some((v, _)) ==> v < usize::MAX,
        same_pos(r, p_qubit(s@, i as int)),
        r matches Some((_, k)) ==> i < k <= s@.len(),
{
    if i < s.len() && s[i] == '$' {
        read_index(s, i + 1)
    } else {
        read_register(s, i)
    }
}

/// `r` is the optional text result `spec` with exec positions.
pub open spec fn same_text(r: Option<(String, usize)>, spec: Option<(Seq<char>, int)>) -> bool {
    match r {
        Some((v, k)) => spec == Some((v@, k as int)),
        None => spec is None,
    }
}

fn read_float(s: &Vec<char>, i: usize) -> (r: Option<(String, usize)>)
    requires
        i <= s@.len(),
    ensures
        same_text(r, p_float(s@, i as int)),
        r matches Some((_, k)) ==> i < k <= s@.len(),
{
    let j = scan_digits_at(s, i);
    if j == i {
        return None;
    }
    if j < s.len() && s[j] == '.' {
        let k = scan_digits_at(s, j + 1);
        Some((text_of(s, i, k), k))
    } else {
        Some((text_of(s, i, j), j))
    }
}

fn at_pi(s: &Vec<char>, i: usize) -> (r: bool)
    requires
        i <= s@.len(),
    ensures
        r == pi_at(s@, i as int),
        r ==> i + 2 <= s.len(),
{
    i < s.len() && i + 1 < s.len() && s[i] == 'p' && s[i + 1] == 'i' && !(i + 2 < s.len() && ident_char(s[i + 2]))
}

/// `r` is the optional operand `spec` with exec positions.
pub open spec fn same_atom(r: Option<(AngleAtom, usize)>, spec: Option<(AtomModel, int)>) -> bool {
    match r {
        Some((v, k)) => spec == Some((v.model(), k as int)),
        None => spec is None,
    }
}

fn read_atom(s: &Vec<char>, i: usize) -> (r: Option<(AngleAtom, usize)>)
    requires
        i <= s@.len(),
    ensures
        same_atom(r, p_atom(s@, i as int)),
        r matches Some((_, k)) ==> i < k <= s@.len(),
{
    if at_pi(s, i) {
        Some((AngleAtom::Pi, i + 2))
    } else {
        match read_float(s, i) {
            Some((f, k)) => Some((AngleAtom::Number(f), k)),
            None => None,
        }
    }
}

/// `r` is the optional angle `spec` with exec positions.
pub open spec fn same_angle(r: Option<(Angle, usize)>, spec: Option<(AngleModel, int)>) -> bool {
    match r {
        Some((v, k)) => spec == Some((v.model(), k as int)),
        None => spec is None,
    }
}

fn read_product(s: &Vec<char>, j: usize) -> (r: Option<(AngleAtom, Option<AngleAtom>, usize)>)
    requires
        j <= s@.len(),
    ensures
        match r {
            Some((a, b, k)) => p_product(s@, j as int) == Some(
                (
                    a.model(),
                    match b {
                        Some(x) => Some(x.model()),
                        None => None::<AtomModel>,
                    },
                    k as int,
                ),
            ) && j < k <= s@.len(),
            None => p_product(s@, j as int) is None,
        },
{
    match read_atom(s, j) {
        Some((a, k)) => {
            let k2 = skip_spaces_at(s, k);
            if k2 < s.len() && s[k2] == '*' {
                match read_atom(s, skip_spaces_at(s, k2 + 1)) {
                    Some((b, k3)) => Some((a, Some(b), k3)),
                    None => None,
                }
            } else {
                Some((a, None, k))
            }
        },
        None => None,
    }
}

fn read_divisor(s: &Vec<char>, k: usize) -> (r: Option<(Option<String>, usize)>)
    requires
        k <= s@.len(),
    ensures
        match r {
            Some((d, k4)) => p_divisor(s@, k as int) == Some(
                (
                    match d {
                        Some(x) => Some(x@),
                        None => None::<Seq<char>>,
                    },
                    k4 as int,
                ),
            ) && k <= k4 <= s@.len(),
            None => p_divisor(s@, k as int) is None,
        },
{
    let k2 = skip_spaces_at(s, k);
    if k2 < s.len() && s[k2] == '/' {
        match read_float(s, skip_spaces_at(s, k2 + 1)) {
            Some((d, k3)) => Some((Some(d), k3)),
            None => None,
        }
    } else {
        Some((None, k))
    }
}

fn read_angle(s: &Vec<char>, i: usize) -> (r: Option<(Angle, usize)>)
    requires
        i <= s@.len(),
    ensures
        same_angle(r, p_angle(s@, i as int)),
        r matches Some((_, k)) ==> i < k <= s@.len(),
{
    let neg = i < s.len() && s[i] == '-';
    let j = if neg {
        skip_spaces_at(s, i + 1)
    } else {
        i
    };
    match read_product(s, j) {
        Some((a, b, k)) => match read_divisor(s, k) {
            Some((d, k4)) => {
                let angle = match (b, d) {
                    (None, None) => if neg {
                        Angle::Neg(a)
                    } else {
                        match a {
                            AngleAtom::Pi => Angle::Pi,
                            AngleAtom::Number(f) => Angle::Number(f),
                        }
                    },
                    (None, Some(d)) => if neg {
                        Angle::NegDiv(a, d)
                    } else {
                        Angle::Div(a, d)
                    },
                    (Some(b), None) => if neg {
                        Angle::NegTimes(a, b)
                    } else {
                        Angle::Times(a, b)
                    },
                    (Some(b), Some(d)) => if neg {
                        Angle::NegTimesDiv(a, b, d)
                    } else {
                        Angle::TimesDiv(a, b, d)
                    },
                };
                Some((angle, k4))
            },
            None => None,
        },
        None => None,
    }
}

/// The angles of `v` have the models `m`.
pub open spec fn angle_models(v: Seq<Angle>, m: Seq<AngleModel>) -> bool {
    v.len() == m.len() && forall|i: int| 0 <= i < v.len() ==> #[trigger] v[i].model() == m[i]
}

fn read_angles(s: &Vec<char>, i: usize) -> (r: Option<(Vec<Angle>, usize)>)
    requires
        i <= s@.len(),
    ensures
        r is Some <==> p_angles(s@, i as int) is Some,
        r matches Some((v, k)) ==> {
            let (m, sk) = p_angles(s@, i as int)->Some_0;
            angle_models(v@, m) && sk == k && i < k <= s@.len()
        },
    decreases s@.len() - i,
{
    match read_angle(s, i) {
        Some((a, k)) => {
            let k2 = skip_spaces_at(s, k);
            if k2 < s.len() && s[k2] == ',' {
                let k3 = skip_spaces_at(s, k2 + 1);
                match read_angles(s, k3) {
                    Some((rest, k4)) => {
                        let mut v: Vec<Angle> = Vec::new();
                        let ghost am = a.model();
                        v.push(a);
                        let ghost rm = p_angles(s@, k3 as int)->Some_0.0;
                        let ghost r0 = rest@;
                        let mut rest = rest;
                        v.append(&mut rest);
                        assert(angle_models(v@, seq![am] + rm)) by {
                            assert forall|j: int| 0 <= j < v@.len() implies #[trigger] v@[j].model() == (seq![am] + rm)[j] by {
                                if j > 0 {
                                    assert(v@[j] == r0[j - 1]);
                                }
                            }
                        }
                        Some((v, k4))
                    },
                    None => None,
                }
            } else {
                let mut v: Vec<Angle> = Vec::new();
                v.push(a);
                Some((v, k))
            }
        },
        None => None,
    }
}

fn read_qubits(s: &Vec<char>, i: usize) -> (r: Option<(Vec<usize>, usize)>)
    requires
        i <= s@.len(),
    ensures
        r matches Some((v, _)) ==> all_below(v@, usize::MAX as nat),
        r is Some <==> p_qubits(s@, i as int) is Some,
        r matches Some((v, k)) ==> p_qubits(s@, i as int) == Some((v@, k as int)) && i < k <= s@.len(),
    decreases s@.len() - i,
{
    match read_qubit(s, i) {
        Some((q, k)) => {
            let k2 = skip_spaces_at(s, k);
            if k2 < s.len() && s[k2] == ',' {
                let k3 = skip_spaces_at(s, k2 + 1);
                match read_qubits(s, k3) {
                    Some((rest, k4)) => {
                        let mut v: Vec<usize> = Vec::new();
                        v.push(q);
                        let ghost r0 = rest@;
                        let mut rest = rest;
                        v.append(&mut rest);
                        assert(v@ =~= seq![q] + r0);
                        Some((v, k4))
                    },
                    None => None,
                }
            } else {
                let mut v: Vec<usize> = Vec::new();
                v.push(q);
                assert(v@ =~= seq![q]);
                Some((v, k))
            }
        },
        None => None,
    }
}

fn read_params(s: &Vec<char>, i: usize) -> (r: Option<(Vec<Angle>, usize)>)
    requires
        i <= s@.len(),
    ensures
        r is Some <==> p_params(s@, i as int) is Some,
        r matches Some((v, k)) ==> {
            let (m, sk) = p_params(s@, i as int)->Some_0;
            angle_models(v@, m) && sk == k && i <= k <= s@.len()
        },
{
    if i < s.len() && s[i] == '(' {
        match read_angles(s, skip_spaces_at(s, i + 1)) {
            Some((a, k)) => {
                let k2 = skip_spaces_at(s, k);
                if k2 < s.len() && s[k2] == ')' {
                    Some((a, k2 + 1))
                } else {
                    None
                }
            },
            None => None,
        }
    } else {
        let v: Vec<Angle> = Vec::new();
        assert(angle_models(v@, Seq::<AngleModel>::empty()));
        Some((v, i))
    }
}

/// The instruction `o` is the one read as `p`, or both are absent.
pub open spec fn opt_read_as(o: Option<IStruct>, p: Option<ParsedOp>) -> bool {
    match o {
        Some(i) => p matches Some(q) && read_as(i@, q),
        None => p is None,
    }
}

fn make_op(s: &Vec<char>, j: usize, w: usize, angles: Vec<Angle>, qs: Vec<usize>, m: Ghost<Seq<AngleModel>>) -> (r: Option<IStruct>)
    requires
        j <= w <= s@.len(),
        angle_models(angles@, m@),
    ensures
        all_below(qs@, usize::MAX as nat) ==> (r matches Some(o) ==> indices_small(o@)),
        opt_read_as(r, classify(s@.subrange(j as int, w as int), m@, qs@)),
{
    let na = angles.len();
    let nq = qs.len();
    let mut angles = angles;
    if na == 0 && nq == 1 && word_is(s, j, w, "h") {
        Some(IStruct::H(qs[0]))
    } else if na == 0 && nq == 1 && word_is(s, j, w, "x") {
        Some(IStruct::X(qs[0]))
    } else if na == 0 && nq == 1 && word_is(s, j, w, "y") {
        Some(IStruct::Y(qs[0]))
    } else if na == 0 && nq == 1 && word_is(s, j, w, "z") {
        Some(IStruct::Z(qs[0]))
    } else if na == 0 && nq == 1 && word_is(s, j, w, "sx") {
        Some(IStruct::RX { angle: Angle::Radians(HALF_PI_BITS), target: qs[0] })
    } else if na == 0 && nq == 1 && word_is(s, j, w, "id") {
        None
    } else if na == 1 && nq == 1 && word_is(s, j, w, "rx") {
        let a = angles.pop().unwrap();
        assert(a.model() == m@[0]);
        Some(IStruct::RX { angle: a, target: qs[0] })
    } else if na == 1 && nq == 1 && word_is(s, j, w, "ry") {
        let a = angles.pop().unwrap();
        assert(a.model() == m@[0]);
        Some(IStruct::RY { angle: a, target: qs[0] })
    } else if na == 1 && nq == 1 && word_is(s, j, w, "rz") {
        let a = angles.pop().unwrap();
        assert(a.model() == m@[0]);
        Some(IStruct::RZ { angle: a, target: qs[0] })
    } else if na == 0 && nq == 2 && word_is(s, j, w, "cx") {
        Some(IStruct::CX { control: qs[0], target: qs[1] })
    } else if na == 0 && nq == 2 && word_is(s, j, w, "cz") {
        Some(IStruct::CZ { control: qs[0], target: qs[1] })
    } else if na == 0 && nq == 2 && word_is(s, j, w, "swap") {
        Some(IStruct::SWAP { qbit1: qs[0], qbit2: qs[1] })
    } else if na == 0 && nq == 2 && word_is(s, j, w, "ecr") {
        None
    } else {
        let body: Vec<Box<IStruct>> = Vec::new();
        assert(IStruct::models(body@) =~= Seq::<Op>::empty());
        Some(IStruct::GATE { position: qs, instruction: body, label: text_of(s, j, w) })
    }
}

fn read_measure_arrow(s: &Vec<char>, i: usize) -> (r: Option<(IStruct, usize)>)
    requires
        i <= s@.len(),
    ensures
        r matches Some((o, _)) ==> indices_small(o@),
        r is Some <==> p_measure_arrow(s@, i as int) is Some,
        r matches Some((o, k)) ==> {
            let (p, sk) = p_measure_arrow(s@, i as int)->Some_0;
            read_as(o@, p) && sk == k && i < k <= s@.len()
        },
{
    match read_qubit(s, i) {
        Some((q, k)) => {
            let k2 = skip_spaces_at(s, k);
            if k2 < s.len() && k2 + 1 < s.len() && s[k2] == '-' && s[k2 + 1] == '>' {
                match read_register(s, skip_spaces_at(s, k2 + 2)) {
                    Some((c, k3)) => {
                        let k4 = skip_spaces_at(s, k3);
                        if k4 < s.len() && s[k4] == ';' {
                            let qv = vec![q];
                            let cv = vec![c];
                            assert(qv@ =~= seq![q]);
                            assert(cv@ =~= seq![c]);
                            Some((IStruct::MEASURE(qv, cv), k4 + 1))
                        } else {
                            None
                        }
                    },
                    None => None,
                }
            } else {
                None
            }
        },
        None => None,
    }
}

fn read_application(s: &Vec<char>, j: usize, w: usize) -> (r: Option<(Option<IStruct>, usize)>)
    requires
        j <= w <= s@.len(),
    ensures
        r matches Some((Some(o), _)) ==> indices_small(o@),
        r is Some <==> p_application(s@, j as int, w as int) is Some,
        r matches Some((o, k)) ==> {
            let (p, sk) = p_application(s@, j as int, w as int)->Some_0;
            opt_read_as(o, p) && sk == k && w < k <= s@.len()
        },
{
    match read_params(s, skip_spaces_at(s, w)) {
        Some((angles, k)) => {
            let ghost m = p_params(s@, skip_spaces(s@, w as int))->Some_0.0;
            match read_qubits(s, skip_spaces_at(s, k)) {
                Some((qs, k2)) => {
                    let k3 = skip_spaces_at(s, k2);
                    if k3 < s.len() && s[k3] == ';' {
                        Some((make_op(s, j, w, angles, qs, Ghost(m)), k3 + 1))
                    } else {
                        None
                    }
                },
                None => None,
            }
        },
        None => None,
    }
}

/// The error for a statement at `j` that does not follow the grammar.
fn syntax_error_at(j: usize) -> (r: QasmError)
    ensures
        r@ == syntax_error(j as int),
{
    let mut m = String::new();
    push_str(&mut m, "invalid statement at character ");
    push_decimal(&mut m, j as u64);
    QasmError::ParseError(m)
}

/// The result `r` of reading a statement is the one `spec` describes.
pub open spec fn same_statement(
    r: Result<(Option<IStruct>, usize), QasmError>,
    spec: Result<(Option<ParsedOp>, int), QasmErrorModel>,
) -> bool {
    match r {
        Ok((o, k)) => spec matches Ok((p, sk)) && opt_read_as(o, p) && sk == k,
        Err(e) => spec == Err::<(Option<ParsedOp>, int), QasmErrorModel>(e@),
    }
}

fn read_statement(s: &Vec<char>, j: usize) -> (r: Result<(Option<IStruct>, usize), QasmError>)
    requires
        j < s@.len(),
    ensures
        r matches Ok((Some(o), _)) ==> indices_small(o@),
        same_statement(r, p_statement(s@, j as int)),
        r matches Ok((_, k)) ==> j < k <= s@.len(),
{
    reveal(p_statement);
    if !ident_start(s[j]) {
        return Err(syntax_error_at(j));
    }
    let w = scan_ident_at(s, j);
    if word_is(s, j, w, "OPENQASM") || word_is(s, j, w, "include") || word_is(s, j, w, "qubit") || word_is(
        s,
        j,
        w,
        "bit",
    ) {
        let k = find_at(s, w, ';');
        if k < s.len() {
            Ok((None, k + 1))
        } else {
            Err(syntax_error_at(j))
        }
    } else if word_is(s, j, w, "gate") {
        let k = find_at(s, w, '}');
        if k < s.len() {
            Ok((None, k + 1))
        } else {
            Err(syntax_error_at(j))
        }
    } else if word_is(s, j, w, "measure") {
        match read_measure_arrow(s, skip_spaces_at(s, w)) {
            Some((m, k)) => Ok((Some(m), k)),
            None => Err(syntax_error_at(j)),
        }
    } else {
        let p = skip_spaces_at(s, w);
        if p < s.len() && s[p] == '[' {
            match read_register(s, j) {
                Some((c, k)) => {
                    let k2 = skip_spaces_at(s, k);
                    if k2 < s.len() && s[k2] == '=' {
                        let k3 = skip_spaces_at(s, k2 + 1);
                        let w2 = scan_ident_at(s, k3);
                        if word_is(s, k3, w2, "measure") {
                            match read_qubit(s, skip_spaces_at(s, w2)) {
                                Some((q, k4)) => {
                                    let k5 = skip_spaces_at(s, k4);
                                    if k5 < s.len() && s[k5] == ';' {
                                        let qv = vec![q];
                                        let cv = vec![c];
                                        assert(qv@ =~= seq![q]);
                                        assert(cv@ =~= seq![c]);
                                        Ok((Some(IStruct::MEASURE(qv, cv)), k5 + 1))
                                    } else {
                                        Err(syntax_error_at(j))
                                    }
                                },
                                None => Err(syntax_error_at(j)),
                            }
                        } else {
                            Err(QasmError::Unsupported("classical assignment".to_owned()))
                        }
                    } else {
                        Err(syntax_error_at(j))
                    }
                },
                None => Err(syntax_error_at(j)),
            }
        } else {
            match read_application(s, j, w) {
                Some((o, k)) => Ok((o, k)),
                None => Err(syntax_error_at(j)),
            }
        }
    }
}

/// `done` followed by the result `r` of reading the rest.
pub open spec fn after(done: Seq<ParsedOp>, r: Result<Seq<ParsedOp>, QasmErrorModel>) -> Result<Seq<ParsedOp>, QasmErrorModel> {
    match r {
        Ok(rest) => Ok(done + rest),
        Err(e) => Err(e),
    }
}

/// One step of reading a program: the statement after the blanks at `i`.
proof fn lemma_program_step(s: Seq<char>, i: int)
    requires
        0 <= i <= s.len(),
    ensures
        ({
            let j = skip_blank(s, i, false);
            &&& j >= s.len() ==> p_program(s, i) == Ok::<Seq<ParsedOp>, QasmErrorModel>(Seq::empty())
            &&& i <= j < s.len() ==> match p_statement(s, j) {
                Err(e) => p_program(s, i) == Err::<Seq<ParsedOp>, QasmErrorModel>(e),
                Ok((o, k)) => j < k <= s.len() ==> p_program(s, i) == match p_program(s, k) {
                    Ok(rest) => Ok(prepend(o, rest)),
                    Err(e) => Err(e),
                },
            }
        }),
{
    lemma_skip_blank(s, i, false);
}

/// Skipping blanks moves forward, within the text.
pub proof fn lemma_skip_blank(s: Seq<char>, i: int, c: bool)
    requires
        0 <= i <= s.len(),
    ensures
        i <= skip_blank(s, i, c) <= s.len(),
    decreases s.len() - i,
{
    if i < s.len() {
        if c {
            lemma_skip_blank(s, i + 1, s[i] != '\n');
        } else if is_space(s[i]) {
            lemma_skip_blank(s, i + 1, false);
        } else if i + 1 < s.len() && s[i] == '/' && s[i + 1] == '/' {
            lemma_skip_blank(s, i + 2, true);
        }
    }
}


/// Reads an OpenQASM 3 program into a list of instructions.
///
/// Declarations are skipped; each other statement gives its instruction,
/// as the module's grammar says. Fails on the first statement that does not
/// follow the grammar.
pub fn parse_qasm(source: &str) -> (r: Result<Vec<IStruct>, QasmError>)
    ensures
        read_program(source@) matches Ok(ps) ==> r is Ok && all_read_as(r->Ok_0@.map_values(|i: IStruct| i@), ps),
        read_program(source@) matches Err(e) ==> r is Err && r->Err_0@ == e,
        r matches Ok(v) ==> forall|i: int| 0 <= i < v@.len() ==> indices_small(#[trigger] v@[i]@),
{
    let s = chars_of(source);
    let mut out: Vec<IStruct> = Vec::new();
    let ghost mut done: Seq<ParsedOp> = Seq::empty();
    let mut pos: usize = 0;
    assert(done + Seq::<ParsedOp>::empty() =~= done);
    loop
        invariant
            pos <= s@.len(),
            s@ == source@,
            all_read_as(out@.map_values(|i: IStruct| i@), done),
            forall|i: int| 0 <= i < out@.len() ==> indices_small(#[trigger] out@[i]@),
            read_program(s@) == after(done, p_program(s@, pos as int)),
        decreases s@.len() - pos,
    {
        let j = skip_blank_at(&s, pos);
        proof {
            lemma_program_step(s@, pos as int);
        }
        if j >= s.len() {
            assert(done + Seq::<ParsedOp>::empty() =~= done);
            return Ok(out);
        }
        match read_statement(&s, j) {
            Err(e) => {
                return Err(e);
            },
            Ok((o, k)) => {
                let ghost p = p_statement(s@, j as int)->Ok_0.0;
                let ghost rest = p_program(s@, k as int);
                match o {
                    Some(ins) => {
                        proof {
                            if rest is Ok {
                                assert(done + prepend(p, rest->Ok_0) =~= done.push(p->Some_0) + rest->Ok_0);
                            }
                            done = done.push(p->Some_0);
                        }
                        let ghost old_out = out@;
                        out.push(ins);
                        assert(out@.map_values(|i: IStruct| i@) =~= old_out.map_values(|i: IStruct| i@).push(ins@));
                    },
                    None => {},
                }
                pos = k;
            },
        }
    }
}

fn max_of(v: &Vec<usize>) -> (r: usize)
    ensures
        r == max_in(v@),
{
    let mut m: usize = 0;
    let mut i: usize = 0;
    while i < v.len()
        invariant
            i <= v@.len(),
            m == max_in(v@.take(i as int)),
        decreases v@.len() - i,
    {
        assert(v@.take(i + 1).drop_last() =~= v@.take(i as int));
        if v[i] > m {
            m = v[i];
        }
        i += 1;
    }
    assert(v@.take(i as int) =~= v@);
    m
}

/// The largest qubit that one instruction names, zero when it names none.
fn max_index_of(ins: &IStruct) -> (r: usize)
    ensures
        r == max_in(op_indices(ins@)),
{
    let v: Vec<usize> = match ins {
        IStruct::H(q) | IStruct::X(q) | IStruct::Y(q) | IStruct::Z(q) => vec![*q],
        IStruct::RX { target, .. } | IStruct::RY { target, .. } | IStruct::RZ { target, .. } => vec![*target],
        IStruct::CX { control, target } | IStruct::CZ { control, target } => vec![*control, *target],
        IStruct::SWAP { qbit1, qbit2 } => vec![*qbit1, *qbit2],
        IStruct::MEASURE(q_bits, _) => crate::instruction::i_struct::copy_indices(q_bits),
        IStruct::CONTROLLED { controls, target, .. } => {
            let mut v = crate::instruction::i_struct::copy_indices(controls);
            v.push(*target);
            v
        },
        IStruct::GATE { position, .. } => crate::instruction::i_struct::copy_indices(position),
        IStruct::U { target, .. } => crate::instruction::i_struct::copy_indices(target),
        IStruct::ANY() => Vec::new(),
    };
    assert(v@ =~= op_indices(ins@));
    max_of(&v)
}

/// The number of qubits that a list of instructions needs: the largest
/// qubit it names, plus one (one when it names none).
pub fn count_qubits(instructions: &[IStruct]) -> (r: usize)
    requires
        max_qubit(instructions@.map_values(|i: IStruct| i@)) < usize::MAX,
    ensures
        r == max_qubit(instructions@.map_values(|i: IStruct| i@)) + 1,
{
    let ghost ops = instructions@.map_values(|i: IStruct| i@);
    let mut max: usize = 0;
    let mut i: usize = 0;
    while i < instructions.len()
        invariant
            i <= instructions@.len(),
            ops == instructions@.map_values(|i: IStruct| i@),
            max == max_qubit(ops.take(i as int)),
        decreases instructions@.len() - i,
    {
        assert(ops.take(i + 1).drop_last() =~= ops.take(i as int));
        let m = max_index_of(&instructions[i]);
        if m > max {
            max = m;
        }
        i += 1;
    }
    assert(ops.take(i as int) =~= ops);
    max + 1
}

/// The number of classical bits that a list of instructions needs: the
/// largest classical bit measured into, plus one (one when there is none).
pub fn count_clbits(instructions: &[IStruct]) -> (r: usize)
    requires
        max_clbit(instructions@.map_values(|i: IStruct| i@)) < usize::MAX,
    ensures
        r == max_clbit(instructions@.map_values(|i: IStruct| i@)) + 1,
{
    let ghost ops = instructions@.map_values(|i: IStruct| i@);
    let mut max: usize = 0;
    let mut any_measure = false;
    let mut i: usize = 0;
    while i < instructions.len()
        invariant
            i <= instructions@.len(),
            ops == instructions@.map_values(|i: IStruct| i@),
            max == max_clbit(ops.take(i as int)),
        decreases instructions@.len() - i,
    {
        assert(ops.take(i + 1).drop_last() =~= ops.take(i as int));
        if let IStruct::MEASURE(_, cl_bits) = &instructions[i] {
            any_measure = true;
            let m = max_of(cl_bits);
            if m > max {
                max = m;
            }
        }
        i += 1;
    }
    assert(ops.take(i as int) =~= ops);
    if max == 0 && any_measure {
        1
    } else {
        max + 1
    }
}

/// The largest index named by instructions that name only small indices is
/// small.
proof fn lemma_max_small(ops: Seq<Op>)
    requires
        forall|i: int| 0 <= i < ops.len() ==> indices_small(#[trigger] ops[i]),
    ensures
        max_qubit(ops) < usize::MAX,
        max_clbit(ops) < usize::MAX,
    decreases ops.len(),
{
    if ops.len() > 0 {
        let rest = ops.drop_last();
        assert forall|i: int| 0 <= i < rest.len() implies indices_small(#[trigger] rest[i]) by {
            assert(rest[i] == ops[i]);
        }
        lemma_max_small(rest);
        assert(indices_small(ops[ops.len() - 1]));
        lemma_max_in_small(op_indices(ops.last()));
        lemma_max_in_small(op_clbits(ops.last()));
    }
}

proof fn lemma_max_in_small(s: Seq<usize>)
    requires
        all_below(s, usize::MAX as nat),
    ensures
        max_in(s) < usize::MAX,
    decreases s.len(),
{
    if s.len() > 0 {
        assert(all_below(s.drop_last(), usize::MAX as nat)) by {
            assert forall|i: int| 0 <= i < s.drop_last().len() implies (#[trigger] s.drop_last()[i]) < usize::MAX by {
                assert(s.drop_last()[i] == s[i]);
            }
        }
        lemma_max_in_small(s.drop_last());
        assert(s.last() == s[s.len() - 1]);
    }
}

/// A program read in full: its instructions and the sizes of its registers.
pub struct ParseResult {
    /// The instructions.
    pub instructions: Vec<IStruct>,
    /// The number of qubits, found from the instructions.
    pub n_qubits: usize,
    /// The number of classical bits, found from the instructions.
    pub n_clbits: usize,
}

/// Reads a program and finds the sizes of its registers from its
/// instructions.
pub fn parse_qasm_full(source: &str) -> (r: Result<ParseResult, QasmError>)
    ensures
        read_program(source@) matches Ok(ps) ==> r matches Ok(res) && all_read_as(
            res.instructions@.map_values(|i: IStruct| i@),
            ps,
        ) && res.n_qubits == max_qubit(res.instructions@.map_values(|i: IStruct| i@)) + 1 && res.n_clbits
            == max_clbit(res.instructions@.map_values(|i: IStruct| i@)) + 1,
        read_program(source@) matches Err(e) ==> r is Err && r->Err_0@ == e,
{
    let instructions = match parse_qasm(source) {
        Ok(v) => v,
        Err(e) => {
            return Err(e);
        },
    };
    proof {
        let ops = instructions@.map_values(|i: IStruct| i@);
        assert forall|i: int| 0 <= i < ops.len() implies indices_small(#[trigger] ops[i]) by {
            assert(indices_small(instructions@[i]@));
        }
        lemma_max_small(ops);
    }
    let n_qubits = count_qubits(instructions.as_slice());
    let n_clbits = count_clbits(instructions.as_slice());
    Ok(ParseResult { instructions, n_qubits, n_clbits })
}

proof fn lemma_max_in(s: Seq<usize>)
    ensures
        forall|i: int| 0 <= i < s.len() ==> (#[trigger] s[i]) <= max_in(s),
    decreases s.len(),
{
    if s.len() > 0 {
        lemma_max_in(s.drop_last());
        assert forall|i: int| 0 <= i < s.len() implies (#[trigger] s[i]) <= max_in(s) by {
            if i < s.len() - 1 {
                assert(s.drop_last()[i] == s[i]);
            }
        }
    }
}

/// Every qubit that the instructions name is below the number of qubits
/// `count_qubits` finds, and every classical bit measured into is below the
/// number of classical bits `count_clbits` finds: a circuit of that size
/// holds them.
pub proof fn lemma_counts_cover(ops: Seq<Op>)
    ensures
        forall|i: int| 0 <= i < ops.len() ==> all_below(op_indices(#[trigger] ops[i]), max_qubit(ops) + 1),
        forall|i: int| 0 <= i < ops.len() ==> all_below(op_clbits(#[trigger] ops[i]), max_clbit(ops) + 1),
    decreases ops.len(),
{
    if ops.len() > 0 {
        let rest = ops.drop_last();
        lemma_counts_cover(rest);
        lemma_max_in(op_indices(ops.last()));
        lemma_max_in(op_clbits(ops.last()));
        assert forall|i: int| 0 <= i < ops.len() implies all_below(op_indices(#[trigger] ops[i]), max_qubit(ops) + 1) by {
            if i < ops.len() - 1 {
                assert(rest[i] == ops[i]);
                assert(all_below(op_indices(rest[i]), max_qubit(rest) + 1));
            }
        }
        assert forall|i: int| 0 <= i < ops.len() implies all_below(op_clbits(#[trigger] ops[i]), max_clbit(ops) + 1) by {
            if i < ops.len() - 1 {
                assert(rest[i] == ops[i]);
                assert(all_below(op_clbits(rest[i]), max_clbit(rest) + 1));
            }
        }
    }
}

} // verus!
