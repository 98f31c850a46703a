//! What the reader gives back of a program that the writer wrote.

use vstd::prelude::*;
use crate::api::generator::{circuit_qasm, op_qasm, ops_qasm, qubit_ref, rotation};
use crate::instruction::i_struct::Op;
use crate::simulator::parser::{
    digits_value, is_digit, is_ident_char, is_ident_start, is_space, p_index, p_qubit, p_register, scan_digits,
    scan_ident, skip_spaces, p_statement, p_application, p_params, p_qubits, classify, ParsedOp,
    QasmErrorModel, p_measure_arrow, find, skip_blank, p_program, lemma_skip_blank, read_program, all_read_as,
    read_as,
};
use crate::text::{decimal, digit_char, lemma_pieces_text_add, pieces_text, text, PieceModel};

verus! {

/// The decimal rendering of a number is a run of digits of that value.
pub proof fn lemma_decimal(n: nat)
    ensures
        decimal(n).len() >= 1,
        forall|k: int| 0 <= k < decimal(n).len() ==> is_digit(#[trigger] decimal(n)[k]),
        digits_value(decimal(n), 0, decimal(n).len() as int) == n,
    decreases n,
{
    if n >= 10 {
        lemma_decimal(n / 10);
        let d = decimal(n / 10);
        let s = decimal(n);
        assert(s == d.push(digit_char(n % 10)));
        assert(s.subrange(0, d.len() as int) =~= d);
        lemma_digits_value_prefix(s, d);
        lemma_digit_char(n % 10);
        assert(s.len() == d.len() + 1);
        assert(s[s.len() - 1] == digit_char(n % 10));
        assert(digits_value(s, 0, s.len() as int) == digits_value(s, 0, d.len() as int) * 10 + (n % 10));
        assert((n / 10) * 10 + n % 10 == n);
        assert forall|k: int| 0 <= k < s.len() implies is_digit(#[trigger] s[k]) by {
            if k < d.len() {
                assert(s[k] == d[k]);
            }
        }
    } else {
        lemma_digit_char(n);
        assert(decimal(n) == seq![digit_char(n)]);
        assert(digits_value(decimal(n), 0, 0) == 0);
    }
}

/// A digit character is a digit, of its value.
proof fn lemma_digit_char(d: nat)
    requires
        d < 10,
    ensures
        is_digit(digit_char(d)),
        digit_char(d) as nat - '0' as nat == d,
{
}

/// The value of a prefix of digits does not depend on what follows it.
proof fn lemma_digits_value_prefix(s: Seq<char>, d: Seq<char>)
    requires
        d.len() <= s.len(),
        s.subrange(0, d.len() as int) == d,
    ensures
        digits_value(s, 0, d.len() as int) == digits_value(d, 0, d.len() as int),
    decreases d.len(),
{
    if d.len() > 0 {
        let d2 = d.drop_last();
        assert(s.subrange(0, d2.len() as int) =~= d2);
        lemma_digits_value_prefix(s, d2);
        lemma_digits_value_prefix(d, d2);
        assert(s[d.len() - 1] == d[d.len() - 1]);
    }
}

/// The value of digits does not depend on the text around them.
proof fn lemma_digits_value_at(s: Seq<char>, i: int, t: Seq<char>)
    requires
        0 <= i,
        i + t.len() <= s.len(),
        s.subrange(i, i + t.len()) == t,
    ensures
        digits_value(s, i, i + t.len()) == digits_value(t, 0, t.len() as int),
    decreases t.len(),
{
    if t.len() > 0 {
        let t2 = t.drop_last();
        assert(s.subrange(i, i + t2.len()) =~= t2);
        lemma_digits_value_at(s, i, t2);
        assert(s[i + t.len() - 1] == t[t.len() - 1]);
        assert(t.subrange(0, t2.len() as int) =~= t2);
        lemma_digits_value_prefix(t, t2);
    }
}

/// A run of digits from `i` to `j` ends the scan at `j`.
proof fn lemma_scan_digits_run(s: Seq<char>, i: int, j: int)
    requires
        0 <= i <= j <= s.len(),
        forall|k: int| i <= k < j ==> is_digit(#[trigger] s[k]),
        j == s.len() || !is_digit(s[j]),
    ensures
        scan_digits(s, i) == j,
    decreases j - i,
{
    if i < j {
        lemma_scan_digits_run(s, i + 1, j);
    }
}

/// The decimal rendering of `n` at `i`, not followed by a digit, reads as `n`.
pub proof fn lemma_index_at(s: Seq<char>, i: int, n: nat)
    requires
        0 <= i,
        i + decimal(n).len() <= s.len(),
        s.subrange(i, i + decimal(n).len()) == decimal(n),
        i + decimal(n).len() == s.len() || !is_digit(s[i + decimal(n).len()]),
        n < usize::MAX,
    ensures
        p_index(s, i) == Some((n as usize, i + decimal(n).len())),
{
    let d = decimal(n);
    lemma_decimal(n);
    assert forall|k: int| i <= k < i + d.len() implies is_digit(#[trigger] s[k]) by {
        assert(s[k] == s.subrange(i, i + d.len())[k - i]);
    }
    lemma_scan_digits_run(s, i, i + d.len());
    lemma_digits_value_at(s, i, d);
}

/// `name[n]` at `i`, for a one-letter name, reads as `n`.
pub proof fn lemma_register_at(s: Seq<char>, i: int, n: nat)
    requires
        0 <= i,
        i + decimal(n).len() + 3 <= s.len(),
        is_ident_start(s[i]),
        s[i + 1] == '[',
        s.subrange(i + 2, i + 2 + decimal(n).len()) == decimal(n),
        s[i + 2 + decimal(n).len()] == ']',
        n < usize::MAX,
    ensures
        p_register(s, i) == Some((n as usize, i + 3 + decimal(n).len())),
        p_qubit(s, i) == Some((n as usize, i + 3 + decimal(n).len())),
{
    lemma_decimal(n);
    assert(scan_ident(s, i + 1) == i + 1);
    assert(scan_ident(s, i) == i + 1);
    assert(skip_spaces(s, i + 1) == i + 1);
    let d = decimal(n);
    assert(s[i + 2] == d[0]);
    assert(skip_spaces(s, i + 2) == i + 2);
    lemma_index_at(s, i + 2, n);
    assert(skip_spaces(s, i + 2 + d.len()) == i + 2 + d.len());
}

/// The characters of `t` stand at `i` in `s`.
pub open spec fn at(s: Seq<char>, i: int, t: Seq<char>) -> bool {
    0 <= i && i + t.len() <= s.len() && s.subrange(i, i + t.len()) == t
}

proof fn lemma_at_split(s: Seq<char>, i: int, a: Seq<char>, b: Seq<char>)
    requires
        at(s, i, a + b),
    ensures
        at(s, i, a),
        at(s, i + a.len(), b),
{
    assert(s.subrange(i, i + a.len()) =~= (a + b).subrange(0, a.len() as int));
    assert((a + b).subrange(0, a.len() as int) =~= a);
    assert(s.subrange(i + a.len(), i + a.len() + b.len()) =~= (a + b).subrange(a.len() as int, (a + b).len() as int));
    assert((a + b).subrange(a.len() as int, (a + b).len() as int) =~= b);
}

proof fn lemma_at_char(s: Seq<char>, i: int, t: Seq<char>, k: int)
    requires
        at(s, i, t),
        0 <= k < t.len(),
    ensures
        s[i + k] == t[k],
{
    assert(s.subrange(i, i + t.len())[k] == t[k]);
}

/// `q[n]` at `i` reads as qubit `n`.
proof fn lemma_qubit_ref_at(s: Seq<char>, i: int, n: nat)
    requires
        at(s, i, qubit_ref(n)),
        n < usize::MAX,
    ensures
        p_qubit(s, i) == Some((n as usize, i + qubit_ref(n).len())),
        p_register(s, i) == Some((n as usize, i + qubit_ref(n).len())),
        qubit_ref(n).len() == decimal(n).len() + 3,
{
    reveal_strlit("q[");
    reveal_strlit("]");
    lemma_decimal(n);
    let d = decimal(n);
    lemma_at_split(s, i, "q["@ + d, "]"@);
    lemma_at_split(s, i, "q["@, d);
    lemma_at_char(s, i, "q["@, 0);
    lemma_at_char(s, i, "q["@, 1);
    lemma_at_char(s, i + 2 + d.len(), "]"@, 0);
    lemma_register_at(s, i, n);
}

/// A one-qubit gate line `name q[n];` reads as the application of `name`
/// to `n`.
proof fn lemma_one_qubit_line(s: Seq<char>, i: int, name: Seq<char>, q: nat)
    requires
        name == "h"@ || name == "x"@ || name == "y"@ || name == "z"@,
        at(s, i, name + " "@ + qubit_ref(q) + ";"@),
        q < usize::MAX,
    ensures
        p_statement(s, i) == Ok::<(Option<ParsedOp>, int), QasmErrorModel>(
            (classify(name, Seq::empty(), seq![q as usize]), i + (name + " "@ + qubit_ref(q) + ";"@).len()),
        ),
{
    reveal(p_statement);
    reveal_strlit("h");
    reveal_strlit("x");
    reveal_strlit("y");
    reveal_strlit("z");
    reveal_strlit(" ");
    reveal_strlit(";");
    reveal_strlit("OPENQASM");
    reveal_strlit("include");
    reveal_strlit("qubit");
    reveal_strlit("bit");
    reveal_strlit("gate");
    reveal_strlit("measure");
    let r = qubit_ref(q);
    lemma_at_split(s, i, name + " "@ + r, ";"@);
    lemma_at_split(s, i, name + " "@, r);
    lemma_at_split(s, i, name, " "@);
    lemma_at_char(s, i, name, 0);
    lemma_at_char(s, i + 1, " "@, 0);
    lemma_qubit_ref_at(s, i + 2, q);
    lemma_at_char(s, i + 2, r, 0);
    let k = i + 2 + r.len();
    lemma_at_char(s, k, ";"@, 0);
    assert(scan_ident(s, i + 1) == i + 1);
    assert(scan_ident(s, i) == i + 1);
    assert(s.subrange(i, i + 1) =~= name);
    assert(skip_spaces(s, i + 2) == i + 2);
    assert(skip_spaces(s, i + 1) == i + 2);
    assert(skip_spaces(s, k) == k);
    assert(p_qubits(s, i + 2) == Some((seq![q as usize], k)));
    assert(p_params(s, i + 2) == Some((Seq::<crate::instruction::i_struct::AngleModel>::empty(), i + 2)));
}

/// A run of identifier characters from `i` to `j` ends the scan at `j`.
proof fn lemma_scan_ident_run(s: Seq<char>, i: int, j: int)
    requires
        0 <= i <= j <= s.len(),
        forall|k: int| i <= k < j ==> is_ident_char(#[trigger] s[k]),
        j == s.len() || !is_ident_char(s[j]),
    ensures
        scan_ident(s, i) == j,
    decreases j - i,
{
    if i < j {
        lemma_scan_ident_run(s, i + 1, j);
    }
}

/// The keywords that the reader skips or reads specially.
pub open spec fn keyword(w: Seq<char>) -> bool {
    w == "OPENQASM"@ || w == "include"@ || w == "qubit"@ || w == "bit"@ || w == "gate"@ || w == "measure"@
}

/// `q[a], q[b]` at `p`, followed by `;`, reads as the qubits `a`, `b`.
proof fn lemma_two_refs(s: Seq<char>, p: int, a: nat, b: nat)
    requires
        at(s, p, qubit_ref(a) + ", "@ + qubit_ref(b) + ";"@),
        a < usize::MAX,
        b < usize::MAX,
    ensures
        p_qubits(s, p) == Some((seq![a as usize, b as usize], p + (qubit_ref(a) + ", "@ + qubit_ref(b)).len())),
        p_params(s, p) == Some((Seq::<crate::instruction::i_struct::AngleModel>::empty(), p)),
{
    reveal_strlit(", ");
    reveal_strlit(";");
    let ra = qubit_ref(a);
    let rb = qubit_ref(b);
    lemma_at_split(s, p, ra + ", "@ + rb, ";"@);
    lemma_at_split(s, p, ra + ", "@, rb);
    lemma_at_split(s, p, ra, ", "@);
    lemma_qubit_ref_at(s, p, a);
    lemma_at_char(s, p, ra, 0);
    let k1 = p + ra.len();
    lemma_at_char(s, k1, ", "@, 0);
    lemma_at_char(s, k1, ", "@, 1);
    let p2 = k1 + 2;
    lemma_qubit_ref_at(s, p2, b);
    lemma_at_char(s, p2, rb, 0);
    let k3 = p2 + rb.len();
    lemma_at_char(s, k3, ";"@, 0);
    assert(skip_spaces(s, k1) == k1);
    assert(skip_spaces(s, p2) == p2);
    assert(skip_spaces(s, k1 + 1) == p2);
    assert(skip_spaces(s, k3) == k3);
    assert(p_qubits(s, p2) == Some((seq![b as usize], k3)));
    assert(seq![a as usize] + seq![b as usize] =~= seq![a as usize, b as usize]);
}

/// A two-qubit gate line `name q[a], q[b];` reads as the application of
/// `name` to `a` and `b`.
#[verifier::rlimit(30)]
proof fn lemma_two_qubit_line(s: Seq<char>, i: int, name: Seq<char>, a: nat, b: nat)
    requires
        name == "cx"@ || name == "swap"@,
        at(s, i, name + " "@ + qubit_ref(a) + ", "@ + qubit_ref(b) + ";"@),
        a < usize::MAX,
        b < usize::MAX,
    ensures
        p_statement(s, i) == Ok::<(Option<ParsedOp>, int), QasmErrorModel>(
            (
                classify(name, Seq::empty(), seq![a as usize, b as usize]),
                i + (name + " "@ + qubit_ref(a) + ", "@ + qubit_ref(b) + ";"@).len(),
            ),
        ),
{
    reveal_strlit("cx");
    reveal_strlit("swap");
    reveal_strlit(" ");
    reveal_strlit(";");
    let rest = qubit_ref(a) + ", "@ + qubit_ref(b) + ";"@;
    let n = name.len() as int;
    assert(name + " "@ + qubit_ref(a) + ", "@ + qubit_ref(b) + ";"@ =~= name + " "@ + rest);
    lemma_at_split(s, i, name + " "@, rest);
    lemma_at_split(s, i, name, " "@);
    assert forall|k: int| i <= k < i + n implies is_ident_char(#[trigger] s[k]) by {
        lemma_at_char(s, i, name, k - i);
    }
    lemma_at_char(s, i, name, 0);
    lemma_at_char(s, i + n, " "@, 0);
    lemma_scan_ident_run(s, i, i + n);
    assert(s.subrange(i, i + n) =~= name);
    let p = i + n + 1;
    lemma_two_refs(s, p, a, b);
    lemma_at_split(s, p, qubit_ref(a) + ", "@ + qubit_ref(b), ";"@);
    let k3 = p + (qubit_ref(a) + ", "@ + qubit_ref(b)).len();
    lemma_at_char(s, k3, ";"@, 0);
    lemma_at_char(s, p, rest, 0);
    assert(skip_spaces(s, p) == p);
    assert(skip_spaces(s, i + n) == p);
    assert(skip_spaces(s, k3) == k3);
    lemma_not_keyword(name);
    reveal(p_statement);
}

/// The names of gates are not keywords.
proof fn lemma_not_keyword(name: Seq<char>)
    requires
        name == "cx"@ || name == "swap"@ || name == "h"@ || name == "x"@ || name == "y"@ || name == "z"@,
    ensures
        !keyword(name),
{
    reveal_strlit("cx");
    reveal_strlit("swap");
    reveal_strlit("h");
    reveal_strlit("x");
    reveal_strlit("y");
    reveal_strlit("z");
    reveal_strlit("OPENQASM");
    reveal_strlit("include");
    reveal_strlit("qubit");
    reveal_strlit("bit");
    reveal_strlit("gate");
    reveal_strlit("measure");
    assert("OPENQASM"@.len() == 8);
    assert("include"@.len() == 7);
    assert("qubit"@.len() == 5);
    assert("bit"@.len() == 3);
    assert("gate"@.len() == 4 && "gate"@[0] == 'g');
    assert("measure"@.len() == 7);
    assert("swap"@.len() == 4 && "swap"@[0] == 's');
    assert("cx"@.len() == 2);
    assert("h"@.len() == 1 && "x"@.len() == 1 && "y"@.len() == 1 && "z"@.len() == 1);
    if name == "swap"@ {
        assert(name != "gate"@ ==> !keyword(name));
        assert(name[0] != "gate"@[0]);
    }
}

/// A measurement line `measure q[a] -> c[b];` reads as the measurement of
/// `a` into `b`.
#[verifier::rlimit(80)]
#[verifier::spinoff_prover]
proof fn lemma_measure_line(s: Seq<char>, i: int, a: nat, b: nat)
    requires
        at(s, i, "measure "@ + qubit_ref(a) + " -> c["@ + decimal(b) + "];"@),
        a < usize::MAX,
        b < usize::MAX,
    ensures
        p_statement(s, i) == Ok::<(Option<ParsedOp>, int), QasmErrorModel>(
            (
                Some(ParsedOp::Measure { qubit: a as usize, clbit: b as usize }),
                i + ("measure "@ + qubit_ref(a) + " -> c["@ + decimal(b) + "];"@).len(),
            ),
        ),
{
    reveal(p_statement);
    reveal_strlit("measure ");
    reveal_strlit(" -> c[");
    reveal_strlit("];");
    reveal_strlit("OPENQASM");
    reveal_strlit("include");
    reveal_strlit("qubit");
    reveal_strlit("bit");
    reveal_strlit("gate");
    reveal_strlit("measure");
    let ra = qubit_ref(a);
    let d = decimal(b);
    lemma_decimal(b);
    lemma_at_split(s, i, "measure "@ + ra + " -> c["@ + d, "];"@);
    lemma_at_split(s, i, "measure "@ + ra + " -> c["@, d);
    lemma_at_split(s, i, "measure "@ + ra, " -> c["@);
    lemma_at_split(s, i, "measure "@, ra);
    assert forall|k: int| i <= k < i + 7 implies is_ident_char(#[trigger] s[k]) by {
        lemma_at_char(s, i, "measure "@, k - i);
    }
    lemma_at_char(s, i, "measure "@, 0);
    lemma_at_char(s, i, "measure "@, 7);
    lemma_scan_ident_run(s, i, i + 7);
    assert(s.subrange(i, i + 7) =~= "measure"@);
    let p = i + 8;
    lemma_qubit_ref_at(s, p, a);
    lemma_at_char(s, p, ra, 0);
    let k = p + ra.len();
    lemma_at_char(s, k, " -> c["@, 0);
    lemma_at_char(s, k, " -> c["@, 1);
    lemma_at_char(s, k, " -> c["@, 2);
    lemma_at_char(s, k, " -> c["@, 3);
    lemma_at_char(s, k, " -> c["@, 4);
    lemma_at_char(s, k, " -> c["@, 5);
    lemma_at_char(s, k + 6 + d.len(), "];"@, 0);
    lemma_at_char(s, k + 6 + d.len(), "];"@, 1);
    assert(s.subrange(k + 6, k + 6 + d.len()) == d);
    lemma_register_at(s, k + 4, b);
    assert(skip_spaces(s, p) == p);
    assert(skip_spaces(s, i + 7) == p);
    assert(skip_spaces(s, k + 1) == k + 1);
    assert(skip_spaces(s, k) == k + 1);
    assert(skip_spaces(s, k + 4) == k + 4);
    assert(skip_spaces(s, k + 3) == k + 4);
    let k5 = k + 4 + 3 + d.len();
    assert(skip_spaces(s, k5) == k5);
}

/// An instruction that the writer writes on one line that the reader reads
/// back: a Hadamard or Pauli gate, a CNOT, an exchange, or the measurement
/// of one qubit, on indices below `usize::MAX`.
pub open spec fn plain_op(op: Op) -> bool {
    match op {
        Op::H(q) => q < usize::MAX,
        Op::X(q) => q < usize::MAX,
        Op::Y(q) => q < usize::MAX,
        Op::Z(q) => q < usize::MAX,
        Op::CX { control, target } => control < usize::MAX && target < usize::MAX,
        Op::Swap { qbit1, qbit2 } => qbit1 < usize::MAX && qbit2 < usize::MAX,
        Op::Measure { qubits, clbits } => qubits.len() == 1 && clbits.len() == 1 && qubits[0] < usize::MAX
            && clbits[0] < usize::MAX,
        _ => false,
    }
}

/// What the reader reads of the line of a plain instruction.
pub open spec fn read_of(op: Op) -> ParsedOp {
    match op {
        Op::H(q) => ParsedOp::H(q),
        Op::X(q) => ParsedOp::X(q),
        Op::Y(q) => ParsedOp::Y(q),
        Op::Z(q) => ParsedOp::Z(q),
        Op::CX { control, target } => ParsedOp::CX { control, target },
        Op::Swap { qbit1, qbit2 } => ParsedOp::Swap { qbit1, qbit2 },
        Op::Measure { qubits, clbits } => ParsedOp::Measure { qubit: qubits[0], clbit: clbits[0] },
        _ => ParsedOp::Custom { label: Seq::empty(), position: Seq::empty() },
    }
}

proof fn lemma_text_one(t: Seq<char>)
    ensures
        pieces_text(seq![text(t)]) == t,
{
    let ps = seq![text(t)];
    assert(ps.drop_last() =~= Seq::<PieceModel>::empty());
    assert(pieces_text(ps.drop_last()) == Seq::<char>::empty());
    assert(ps.last() == PieceModel::Text(t));
    assert(Seq::<char>::empty() + t =~= t);
}

/// The line of a plain instruction reads as that instruction.
proof fn lemma_line(s: Seq<char>, i: int, op: Op)
    requires
        plain_op(op),
        at(s, i, pieces_text(op_qasm(op))),
    ensures
        p_statement(s, i) == Ok::<(Option<ParsedOp>, int), QasmErrorModel>(
            (Some(read_of(op)), i + pieces_text(op_qasm(op)).len()),
        ),
        is_ident_start(s[i]),
{
    reveal_strlit("h");
    reveal_strlit("x");
    reveal_strlit("y");
    reveal_strlit("z");
    reveal_strlit("cx");
    reveal_strlit("swap");
    reveal_strlit("measure ");
    reveal_strlit("cz");
    assert("cz"@.len() == 2);
    assert("h"@.len() == 1 && "x"@.len() == 1 && "y"@.len() == 1 && "z"@.len() == 1);
    assert("cx"@.len() == 2 && "swap"@.len() == 4);
    match op {
        Op::H(q) => {
            lemma_text_one("h"@ + " "@ + qubit_ref(q as nat) + ";"@);
            lemma_one_qubit_line(s, i, "h"@, q as nat);
            lemma_at_char(s, i, "h"@ + " "@ + qubit_ref(q as nat) + ";"@, 0);
            assert(p_statement(s, i) == Ok::<(Option<ParsedOp>, int), QasmErrorModel>(
                (Some(read_of(op)), i + pieces_text(op_qasm(op)).len()),
            ));
        },
        Op::X(q) => {
            lemma_text_one("x"@ + " "@ + qubit_ref(q as nat) + ";"@);
            lemma_one_qubit_line(s, i, "x"@, q as nat);
            lemma_at_char(s, i, "x"@ + " "@ + qubit_ref(q as nat) + ";"@, 0);
            assert(p_statement(s, i) == Ok::<(Option<ParsedOp>, int), QasmErrorModel>(
                (Some(read_of(op)), i + pieces_text(op_qasm(op)).len()),
            ));
        },
        Op::Y(q) => {
            lemma_text_one("y"@ + " "@ + qubit_ref(q as nat) + ";"@);
            lemma_one_qubit_line(s, i, "y"@, q as nat);
            lemma_at_char(s, i, "y"@ + " "@ + qubit_ref(q as nat) + ";"@, 0);
            assert(p_statement(s, i) == Ok::<(Option<ParsedOp>, int), QasmErrorModel>(
                (Some(read_of(op)), i + pieces_text(op_qasm(op)).len()),
            ));
        },
        Op::Z(q) => {
            lemma_text_one("z"@ + " "@ + qubit_ref(q as nat) + ";"@);
            lemma_one_qubit_line(s, i, "z"@, q as nat);
            lemma_at_char(s, i, "z"@ + " "@ + qubit_ref(q as nat) + ";"@, 0);
            assert(p_statement(s, i) == Ok::<(Option<ParsedOp>, int), QasmErrorModel>(
                (Some(read_of(op)), i + pieces_text(op_qasm(op)).len()),
            ));
        },
        Op::CX { control, target } => {
            let t = "cx"@ + " "@ + qubit_ref(control as nat) + ", "@ + qubit_ref(target as nat) + ";"@;
            lemma_text_one(t);
            lemma_two_qubit_line(s, i, "cx"@, control as nat, target as nat);
            lemma_at_char(s, i, t, 0);
            assert(p_statement(s, i) == Ok::<(Option<ParsedOp>, int), QasmErrorModel>(
                (Some(read_of(op)), i + pieces_text(op_qasm(op)).len()),
            ));
        },
        Op::Swap { qbit1, qbit2 } => {
            let t = "swap"@ + " "@ + qubit_ref(qbit1 as nat) + ", "@ + qubit_ref(qbit2 as nat) + ";"@;
            lemma_text_one(t);
            lemma_two_qubit_line(s, i, "swap"@, qbit1 as nat, qbit2 as nat);
            lemma_at_char(s, i, t, 0);
            assert(p_statement(s, i) == Ok::<(Option<ParsedOp>, int), QasmErrorModel>(
                (Some(read_of(op)), i + pieces_text(op_qasm(op)).len()),
            ));
        },
        Op::Measure { qubits, clbits } => {
            let t = "measure "@ + qubit_ref(qubits[0] as nat) + " -> c["@ + decimal(clbits[0] as nat) + "];"@;
            lemma_text_one(t);
            lemma_measure_line(s, i, qubits[0] as nat, clbits[0] as nat);
            lemma_at_char(s, i, t, 0);
            assert(p_statement(s, i) == Ok::<(Option<ParsedOp>, int), QasmErrorModel>(
                (Some(read_of(op)), i + pieces_text(op_qasm(op)).len()),
            ));
        },
        _ => {},
    }
}

/// A blank character before position `k + 1` changes nothing to what is
/// read from there.
proof fn lemma_program_blank(s: Seq<char>, k: int)
    requires
        0 <= k < s.len(),
        is_space(s[k]),
    ensures
        p_program(s, k) == p_program(s, k + 1),
{
    lemma_skip_blank(s, k + 1, false);
    assert(skip_blank(s, k, false) == skip_blank(s, k + 1, false));
}

/// A statement that starts at `i` is read, then what follows it.
proof fn lemma_program_statement(s: Seq<char>, i: int, o: Option<ParsedOp>, k: int)
    requires
        0 <= i < k <= s.len(),
        is_ident_start(s[i]),
        p_statement(s, i) == Ok::<(Option<ParsedOp>, int), QasmErrorModel>((o, k)),
    ensures
        p_program(s, i) == match p_program(s, k) {
            Ok(rest) => Ok(crate::simulator::parser::prepend(o, rest)),
            Err(e) => Err::<Seq<ParsedOp>, QasmErrorModel>(e),
        },
{
    assert(skip_blank(s, i, false) == i);
}

/// The lines of an instruction list: the first, then the others.
proof fn lemma_ops_qasm_first(ops: Seq<Op>)
    requires
        ops.len() > 0,
    ensures
        ops_qasm(ops) == op_qasm(ops[0]) + seq![text("\n"@)] + ops_qasm(ops.drop_first()),
    decreases ops.len(),
{
    if ops.len() == 1 {
        assert(ops.drop_last() =~= Seq::<Op>::empty());
        assert(ops.drop_first() =~= Seq::<Op>::empty());
        assert(ops_qasm(ops) =~= op_qasm(ops[0]) + seq![text("\n"@)] + ops_qasm(ops.drop_first()));
    } else {
        lemma_ops_qasm_first(ops.drop_last());
        assert(ops.drop_last()[0] == ops[0]);
        assert(ops.drop_last().drop_first() =~= ops.drop_first().drop_last());
        assert(ops.drop_first().last() == ops.last());
        assert(ops_qasm(ops) =~= op_qasm(ops[0]) + seq![text("\n"@)] + ops_qasm(ops.drop_first()));
    }
}

/// The lines of plain instructions, up to the end of the text, read back as
/// those instructions.
proof fn lemma_program_lines(s: Seq<char>, i: int, ops: Seq<Op>)
    requires
        forall|j: int| 0 <= j < ops.len() ==> plain_op(#[trigger] ops[j]),
        at(s, i, pieces_text(ops_qasm(ops))),
        i + pieces_text(ops_qasm(ops)).len() == s.len(),
    ensures
        p_program(s, i) == Ok::<Seq<ParsedOp>, QasmErrorModel>(reads_of(ops)),
        ops.len() > 0 ==> is_ident_start(s[i]),
    decreases ops.len(),
{
    reveal_strlit("\n");
    if ops.len() == 0 {
        assert(ops_qasm(ops) =~= Seq::<PieceModel>::empty());
        lemma_skip_blank(s, i, false);
        assert(reads_of(ops) =~= Seq::<ParsedOp>::empty());
    } else {
        let rest = ops.drop_first();
        lemma_ops_qasm_first(ops);
        let l0 = pieces_text(op_qasm(ops[0]));
        lemma_pieces_text_add(op_qasm(ops[0]) + seq![text("\n"@)], ops_qasm(rest));
        lemma_pieces_text_add(op_qasm(ops[0]), seq![text("\n"@)]);
        lemma_text_one("\n"@);
        assert(pieces_text(ops_qasm(ops)) == l0 + "\n"@ + pieces_text(ops_qasm(rest)));
        lemma_at_split(s, i, l0 + "\n"@, pieces_text(ops_qasm(rest)));
        lemma_at_split(s, i, l0, "\n"@);
        assert(plain_op(ops[0]));
        lemma_line(s, i, ops[0]);
        let k = i + l0.len();
        lemma_at_char(s, k, "\n"@, 0);
        assert forall|j: int| 0 <= j < rest.len() implies plain_op(#[trigger] rest[j]) by {
            assert(rest[j] == ops[j + 1]);
        }
        lemma_program_lines(s, k + 1, rest);
        lemma_program_blank(s, k);
        lemma_program_statement(s, i, Some(read_of(ops[0])), k);
        assert(reads_of(ops) =~= seq![read_of(ops[0])] + rest.map_values(|o: Op| read_of(o)));
    }
}

/// The first `c` from `i` on stands at `j`.
proof fn lemma_find_run(s: Seq<char>, i: int, j: int, c: char)
    requires
        0 <= i <= j < s.len(),
        forall|k: int| i <= k < j ==> #[trigger] s[k] != c,
        s[j] == c,
    ensures
        find(s, i, c) == j,
    decreases j - i,
{
    if i < j {
        lemma_find_run(s, i + 1, j, c);
    }
}

/// A declaration `kw ...;` that starts at `i` and whose `;` stands at `j`
/// is skipped.
proof fn lemma_declaration(s: Seq<char>, i: int, kw: Seq<char>, j: int)
    requires
        kw == "OPENQASM"@ || kw == "qubit"@ || kw == "bit"@,
        at(s, i, kw),
        i + kw.len() <= j < s.len(),
        !is_ident_char(s[i + kw.len()]),
        forall|k: int| i + kw.len() <= k < j ==> #[trigger] s[k] != ';',
        s[j] == ';',
    ensures
        p_statement(s, i) == Ok::<(Option<ParsedOp>, int), QasmErrorModel>((None, j + 1)),
        is_ident_start(s[i]),
{
    reveal(p_statement);
    reveal_strlit("OPENQASM");
    reveal_strlit("qubit");
    reveal_strlit("bit");
    let n = kw.len() as int;
    assert forall|k: int| i <= k < i + n implies is_ident_char(#[trigger] s[k]) by {
        lemma_at_char(s, i, kw, k - i);
    }
    lemma_at_char(s, i, kw, 0);
    lemma_scan_ident_run(s, i, i + n);
    assert(s.subrange(i, i + n) =~= kw);
    lemma_find_run(s, i + n, j, ';');
}

/// The header that the writer puts before the instructions of a circuit.
pub open spec fn header_of(q: nat, c: nat) -> Seq<char> {
    "OPENQASM 3.0;\nqubit q["@ + decimal(q) + "];\nbit c["@ + decimal(c) + "];\n"@
}

/// The header of a program is skipped.
#[verifier::rlimit(30)]
proof fn lemma_header(s: Seq<char>, q: nat, c: nat)
    requires
        at(s, 0, header_of(q, c)),
        header_of(q, c).len() < s.len() ==> is_ident_start(s[header_of(q, c).len() as int]),
    ensures
        p_program(s, 0) == p_program(s, header_of(q, c).len() as int),
{
    reveal_strlit("OPENQASM 3.0;\nqubit q[");
    reveal_strlit("];\nbit c[");
    reveal_strlit("];\n");
    reveal_strlit("OPENQASM");
    reveal_strlit("qubit");
    reveal_strlit("bit");
    let dq = decimal(q);
    let dc = decimal(c);
    lemma_decimal(q);
    lemma_decimal(c);
    let a = "OPENQASM 3.0;\nqubit q["@;
    let b = "];\nbit c["@;
    let e = "];\n"@;
    lemma_at_split(s, 0, a + dq + b + dc, e);
    lemma_at_split(s, 0, a + dq + b, dc);
    lemma_at_split(s, 0, a + dq, b);
    lemma_at_split(s, 0, a, dq);
    assert(a.len() == 22);
    assert(b.len() == 9);
    assert(e.len() == 3);
    assert forall|k: int| 0 <= k < a.len() implies s[k] == #[trigger] a[k] by {
        lemma_at_char(s, 0, a, k);
    }
    let p1: int = (a.len() + dq.len()) as int;
    assert forall|k: int| 0 <= k < b.len() implies s[p1 + k] == #[trigger] b[k] by {
        lemma_at_char(s, p1, b, k);
    }
    let p2: int = p1 + b.len() + dc.len();
    assert forall|k: int| 0 <= k < e.len() implies s[p2 + k] == #[trigger] e[k] by {
        lemma_at_char(s, p2, e, k);
    }
    assert forall|k: int| 0 <= k < dq.len() implies is_digit(#[trigger] s[a.len() + k]) by {
        lemma_at_char(s, a.len() as int, dq, k);
    }
    assert forall|k: int| 0 <= k < dc.len() implies is_digit(#[trigger] s[p1 + b.len() + k]) by {
        lemma_at_char(s, p1 + b.len() as int, dc, k);
    }
    // OPENQASM 3.0;
    assert(s[8] == a[8] && s[9] == a[9] && s[10] == a[10] && s[11] == a[11] && s[12] == a[12]);
    assert(s[13] == a[13] && s[14] == a[14] && s[19] == a[19] && s[20] == a[20] && s[21] == a[21]);
    assert(s[15] == a[15] && s[16] == a[16] && s[17] == a[17] && s[18] == a[18]);
    assert(s[p1 + 4] == b[4] && s[p1 + 5] == b[5]);
    assert(s[p1] == b[0] && s[p1 + 1] == b[1] && s[p1 + 2] == b[2] && s[p1 + 3] == b[3]);
    assert(s[p1 + 6] == b[6] && s[p1 + 7] == b[7] && s[p1 + 8] == b[8]);
    assert(s[p2] == e[0] && s[p2 + 1] == e[1] && s[p2 + 2] == e[2]);
    assert(s.subrange(0, 8) =~= "OPENQASM"@);
    lemma_declaration(s, 0, "OPENQASM"@, 12);
    lemma_program_statement(s, 0, None, 13);
    lemma_program_blank(s, 13);
    // qubit q[n];
    assert(s.subrange(14, 19) =~= "qubit"@);
    assert forall|k: int| 19 <= k < p1 + 1 implies #[trigger] s[k] != ';' by {
        if k >= a.len() && k < a.len() + dq.len() {
            let k2 = k - a.len();
            assert(is_digit(s[a.len() + k2]));
        }
    }
    lemma_declaration(s, 14, "qubit"@, p1 + 1);
    lemma_program_statement(s, 14, None, p1 + 2);
    lemma_program_blank(s, p1 + 2);
    // bit c[m];
    let p3: int = p1 + 3;
    assert(s.subrange(p3, p3 + 3) =~= "bit"@);
    assert forall|k: int| p3 + 3 <= k < p2 + 1 implies #[trigger] s[k] != ';' by {
        if k >= p1 + b.len() && k < p2 {
            let k2 = k - p1 - b.len();
            assert(is_digit(s[p1 + b.len() + k2]));
        }
    }
    lemma_declaration(s, p3, "bit"@, p2 + 1);
    lemma_program_statement(s, p3, None, p2 + 2);
    lemma_program_blank(s, p2 + 2);
    assert(header_of(q, c).len() == p2 + 3);
    assert(header_of(q, c) =~= a + dq + b + dc + e);
}

/// What the reader reads of the lines of plain instructions.
pub open spec fn reads_of(ops: Seq<Op>) -> Seq<ParsedOp> {
    ops.map_values(|o: Op| read_of(o))
}

/// An instruction read as what the reader reads of a plain instruction's line
/// is that instruction.
proof fn lemma_read_as_plain(op: Op, op2: Op)
    requires
        plain_op(op),
        read_as(op2, read_of(op)),
    ensures
        op2 == op,
{
    match op {
        Op::Measure { qubits, clbits } => {
            assert(qubits =~= seq![qubits[0]]);
            assert(clbits =~= seq![clbits[0]]);
        },
        _ => {},
    }
}

/// What the writer writes of a circuit whose instructions are Hadamard or
/// Pauli gates, CNOTs, exchanges and measurements of one qubit, the reader
/// reads back: those instructions, in order, and no others.
pub proof fn lemma_read_back(q: nat, c: nat, ops: Seq<Op>)
    requires
        forall|i: int| 0 <= i < ops.len() ==> plain_op(#[trigger] ops[i]),
    ensures
        read_program(pieces_text(circuit_qasm(q, c, ops))) == Ok::<Seq<ParsedOp>, QasmErrorModel>(
            reads_of(ops),
        ),
        forall|ops2: Seq<Op>| #[trigger] all_read_as(ops2, reads_of(ops)) ==> ops2 == ops,
{
    let h = header_of(q, c);
    let body = pieces_text(ops_qasm(ops));
    lemma_pieces_text_add(seq![text(h)], ops_qasm(ops));
    lemma_text_one(h);
    let s = pieces_text(circuit_qasm(q, c, ops));
    assert(circuit_qasm(q, c, ops) == seq![text(h)] + ops_qasm(ops));
    assert(s == h + body);
    assert(s.subrange(0, h.len() as int) =~= h);
    assert(s.subrange(h.len() as int, s.len() as int) =~= body);
    lemma_program_lines(s, h.len() as int, ops);
    lemma_header(s, q, c);
    assert forall|ops2: Seq<Op>| #[trigger] all_read_as(ops2, reads_of(ops)) implies ops2 == ops by {
        assert forall|i: int| 0 <= i < ops.len() implies ops2[i] == ops[i] by {
            assert(read_as(ops2[i], reads_of(ops)[i]));
            lemma_read_as_plain(ops[i], ops2[i]);
        }
        assert(ops2 =~= ops);
    }
}

/// The line written for a rotation on qubit `t`: `name(`, the angle, and
/// `) q[t];`, after which the reader reads the qubit `t`.
proof fn lemma_rotation_tail(name: Seq<char>, angle: crate::instruction::i_struct::Angle, t: usize)
    requires
        (t as nat) < usize::MAX,
    ensures
        ({
            let tail = ") "@ + qubit_ref(t as nat) + ";"@;
            &&& rotation(name, angle, t) == seq![text(name + "("@), PieceModel::Value(angle), text(tail)]
            &&& tail.len() >= 3
            &&& tail[0] == ')'
            &&& tail[1] == ' '
            &&& tail.last() == ';'
            &&& p_qubit(tail, 2) == Some((t, tail.len() - 1))
            &&& (name + "("@).len() >= 1
            &&& (name + "("@).last() == '('
            &&& (name + "("@).drop_last() == name
        }),
{
    reveal_strlit(") ");
    reveal_strlit(";");
    reveal_strlit("(");
    let r = qubit_ref(t as nat);
    let tail = ") "@ + r + ";"@;
    assert(tail.subrange(2, 2 + r.len() as int) =~= r);
    lemma_qubit_ref_at(tail, 2, t as nat);
    assert((name + "("@).drop_last() =~= name);
}

/// The reader takes `rx`, `ry` and `rz` with one angle and one qubit for
/// the rotation about that axis.
#[verifier::spinoff_prover]
proof fn lemma_classify_rotations(op: Op)
    ensures
        op matches Op::RX { angle, target } ==> classify("rx"@, seq![angle.model()], seq![target]) == Some(
            ParsedOp::RX { angle: angle.model(), target },
        ),
        op matches Op::RY { angle, target } ==> classify("ry"@, seq![angle.model()], seq![target]) == Some(
            ParsedOp::RY { angle: angle.model(), target },
        ),
        op matches Op::RZ { angle, target } ==> classify("rz"@, seq![angle.model()], seq![target]) == Some(
            ParsedOp::RZ { angle: angle.model(), target },
        ),
{
    reveal_strlit("rx");
    reveal_strlit("ry");
    reveal_strlit("rz");
    assert("rx"@[1] != "ry"@[1]);
    assert("rx"@[1] != "rz"@[1]);
    assert("ry"@[1] != "rz"@[1]);
}

/// A rotation about X, Y or Z is written as a name and `(`, its angle, and
/// `) q[t];`: the reader reads the qubit after the angle, and takes the
/// name, with that angle and that qubit, for the same rotation about the
/// same axis.
pub proof fn lemma_rotation_reads_back(op: Op)
    requires
        op is RX || op is RY || op is RZ,
        op matches Op::RX { target, .. } ==> (target as nat) < usize::MAX,
        op matches Op::RY { target, .. } ==> (target as nat) < usize::MAX,
        op matches Op::RZ { target, .. } ==> (target as nat) < usize::MAX,
    ensures
        ({
            let ps = op_qasm(op);
            &&& ps.len() == 3
            &&& ps[0] is Text && ps[1] is Value && ps[2] is Text
            &&& ps[0]->Text_0.len() >= 1 && ps[0]->Text_0.last() == '('
            &&& ps[2]->Text_0.len() >= 3 && ps[2]->Text_0[0] == ')' && ps[2]->Text_0[1] == ' '
                && ps[2]->Text_0.last() == ';'
            &&& p_qubit(ps[2]->Text_0, 2) is Some
            &&& ({
                let read = p_qubit(ps[2]->Text_0, 2)->Some_0;
                let kind = classify(ps[0]->Text_0.drop_last(), seq![ps[1]->Value_0.model()], seq![read.0]);
                &&& read.1 == ps[2]->Text_0.len() - 1
                &&& kind is Some
                &&& read_as(op, kind->Some_0)
            })
        }),
{
    lemma_classify_rotations(op);
    match op {
        Op::RX { angle, target } => {
            lemma_rotation_tail("rx"@, angle, target);
            assert(op_qasm(op) == rotation("rx"@, angle, target));
        },
        Op::RY { angle, target } => {
            lemma_rotation_tail("ry"@, angle, target);
            assert(op_qasm(op) == rotation("ry"@, angle, target));
        },
        Op::RZ { angle, target } => {
            lemma_rotation_tail("rz"@, angle, target);
            assert(op_qasm(op) == rotation("rz"@, angle, target));
        },
        _ => {},
    }
}

} // verus!
