//! The job records of the service and the measurement results of a job,
//! with their conversion into histograms of counts.

use vstd::prelude::*;
use crate::text::{bitstring, chars_of, decimal, push_decimal, push_str, to_bitstring};

verus! {

/// A JSON value of `serde_json`, carried through unread.
#[verifier::external_type_specification]
#[verifier::external_body]
pub struct ExJsonValue(serde_json::Value);

/// The program of a job.
pub struct Program {
    /// Identifier of the program (`"sampler"`, `"estimator"`).
    pub id: String,
}

/// The state of a job.
pub struct State {
    /// Fine-grained status (`"Queued"`, `"Running"`, `"Completed"`, `"Failed"`).
    pub status: String,
}

/// The program of a job in a job list.
pub struct Program2 {
    /// Identifier of the program.
    pub id: String,
}

/// The state of a job in a job list.
pub struct State2 {
    /// Fine-grained status.
    pub status: String,
}

/// The answer to a job submission.
pub struct SubmitJobResponse {
    /// Identifier of the submitted job.
    pub id: String,
    /// Initial status, usually `"Queued"`.
    pub status: Option<String>,
    /// Backend the job was submitted to.
    pub backend: Option<String>,
    /// Creation date.
    pub created: Option<String>,
}

/// The classical register of a circuit's results.
pub struct ClassicalRegister {
    /// One measurement per shot, in hexadecimal (`"0x3"`).
    pub samples: Vec<String>,
    /// Number of classical bits of the register.
    pub num_bits: u32,
}

/// The measurement data of one circuit.
pub struct PubData {
    /// The classical register `c`.
    pub c: ClassicalRegister,
}

/// The result of one circuit of a job.
pub struct PubResult {
    /// Measurement data.
    pub data: PubData,
    /// Metadata of the circuit's execution.
    pub metadata: serde_json::Value,
}

/// The results of a job: one per circuit submitted.
pub struct ResultRoot {
    /// One result per circuit.
    pub results: Vec<PubResult>,
    /// Metadata of the job's execution.
    pub metadata: serde_json::Value,
}

/// A histogram: each measured bitstring with the number of shots that gave it.
pub type Counts = Vec<(String, u32)>;

/// Why a sample is not a hexadecimal number.
pub enum HexError {
    /// The sample has no digit.
    Empty,
    /// A character is not a hexadecimal digit.
    InvalidDigit,
    /// The value does not fit in 64 bits.
    PosOverflow,
}

/// The text of a number-reading error, as std writes it.
pub open spec fn hex_error_text(e: HexError) -> Seq<char> {
    match e {
        HexError::Empty => "cannot parse integer from empty string"@,
        HexError::InvalidDigit => "invalid digit found in string"@,
        HexError::PosOverflow => "number too large to fit in target type"@,
    }
}

/// `s` without its leading `0x` prefixes.
pub open spec fn strip_0x(s: Seq<char>) -> Seq<char>
    decreases s.len(),
{
    if s.len() >= 2 && s[0] == '0' && s[1] == 'x' {
        strip_0x(s.subrange(2, s.len() as int))
    } else {
        s
    }
}

/// The value of a hexadecimal digit, either case.
pub open spec fn hex_digit(c: char) -> Option<nat> {
    if '0' <= c && c <= '9' {
        Some((c as nat - '0' as nat) as nat)
    } else if 'a' <= c && c <= 'f' {
        Some((c as nat - 'a' as nat + 10) as nat)
    } else if 'A' <= c && c <= 'F' {
        Some((c as nat - 'A' as nat + 10) as nat)
    } else {
        None
    }
}

/// Reads the digits `d[i..]` after the value `acc` of those before them,
/// stopping at the first digit that is invalid or makes the value exceed
/// 64 bits.
pub open spec fn hex_from(d: Seq<char>, i: int, acc: nat) -> Result<nat, HexError>
    decreases d.len() - i,
{
    if i < 0 || i >= d.len() {
        Ok(acc)
    } else {
        match hex_digit(d[i]) {
            None => Err(HexError::InvalidDigit),
            Some(x) => if acc * 16 + x > u64::MAX {
                Err(HexError::PosOverflow)
            } else {
                hex_from(d, i + 1, acc * 16 + x)
            },
        }
    }
}

/// Reads an unsigned hexadecimal number with an optional `+` sign, as
/// `u64::from_str_radix(s, 16)` reads it.
pub open spec fn parse_hex(s: Seq<char>) -> Result<nat, HexError> {
    if s.len() == 0 {
        Err(HexError::Empty)
    } else if s[0] == '+' {
        if s.len() == 1 {
            Err(HexError::InvalidDigit)
        } else {
            hex_from(s, 1, 0)
        }
    } else {
        hex_from(s, 0, 0)
    }
}

/// The value of a sample, its `0x` prefixes removed.
pub open spec fn sample_value(s: Seq<char>) -> Result<nat, HexError> {
    parse_hex(strip_0x(s))
}

/// The number of binary digits of `n` (none for zero).
pub open spec fn bit_length(n: nat) -> nat
    decreases n,
{
    if n == 0 {
        0
    } else {
        1 + bit_length(n / 2)
    }
}

/// The largest value among the samples that can be read, zero when none can.
pub open spec fn max_valid(samples: Seq<Seq<char>>) -> nat
    decreases samples.len(),
{
    if samples.len() == 0 {
        0
    } else {
        let m = max_valid(samples.drop_last());
        match sample_value(samples.last()) {
            Ok(v) => if v > m {
                v
            } else {
                m
            },
            Err(_) => m,
        }
    }
}

/// The width of the bitstrings: the register's number of bits when it is
/// given, else the number of binary digits of the largest sample (one for
/// zero).
///
/// The width is counted exactly on the integer. Computed instead as
/// `floor(log2(max as f64)) + 1`, it agrees below 2^53; from there the
/// conversion to `f64` rounds, and `f64::log2`, whose precision std leaves
/// to the platform, may give one digit more for a largest sample just
/// below a power of two.
pub open spec fn register_width(samples: Seq<Seq<char>>, num_bits: u32) -> nat {
    if num_bits > 0 {
        num_bits as nat
    } else {
        let m = max_valid(samples);
        if m == 0 {
            1
        } else {
            bit_length(m)
        }
    }
}

/// The histogram of `keys`: each distinct key with its number of
/// occurrences, in order of first occurrence.
pub open spec fn tally(keys: Seq<Seq<char>>) -> Seq<(Seq<char>, nat)>
    decreases keys.len(),
{
    if keys.len() == 0 {
        Seq::empty()
    } else {
        let t = tally(keys.drop_last());
        let k = keys.last();
        match index_of_key(t, k) {
            Some(i) => t.update(i, (k, t[i].1 + 1)),
            None => t.push((k, 1)),
        }
    }
}

/// The position of key `k` in the histogram `t`, if it is there.
pub open spec fn index_of_key(t: Seq<(Seq<char>, nat)>, k: Seq<char>) -> Option<int>
    decreases t.len(),
{
    if t.len() == 0 {
        None
    } else if t.last().0 == k {
        Some(t.len() - 1)
    } else {
        index_of_key(t.drop_last(), k)
    }
}

/// The model of a histogram.
pub open spec fn counts_model(c: Seq<(String, u32)>) -> Seq<(Seq<char>, nat)> {
    c.map_values(|p: (String, u32)| (p.0@, p.1 as nat))
}

/// The texts of a list of strings.
pub open spec fn texts(v: Seq<String>) -> Seq<Seq<char>> {
    v.map_values(|s: String| s@)
}

/// The bitstrings of the samples `s[..n]`, each at least `w` digits wide.
/// Meaningful when those samples can be read.
pub open spec fn bitstrings(s: Seq<Seq<char>>, w: nat) -> Seq<Seq<char>> {
    s.map_values(|x: Seq<char>| bitstring(sample_value(x)->Ok_0, w))
}

/// The position of the first sample that cannot be read, if any.
pub open spec fn first_invalid(s: Seq<Seq<char>>) -> Option<int> {
    if exists|i: int| 0 <= i < s.len() && sample_value(#[trigger] s[i]) is Err {
        Some(choose|i: int| 0 <= i < s.len() && sample_value(#[trigger] s[i]) is Err && forall|j: int|
            0 <= j < i ==> sample_value(#[trigger] s[j]) is Ok)
    } else {
        None
    }
}

/// The histogram of a register, or the text of the first unreadable sample
/// and its error.
pub open spec fn register_counts(samples: Seq<Seq<char>>, num_bits: u32) -> Result<Seq<(Seq<char>, nat)>, (Seq<char>, Seq<char>)> {
    match first_invalid(samples) {
        Some(i) => Err((samples[i], hex_error_text(sample_value(samples[i])->Err_0))),
        None => Ok(tally(bitstrings(samples, register_width(samples, num_bits)))),
    }
}

/// The error of `to_counts` for an unreadable sample.
pub open spec fn invalid_sample_msg(sample: Seq<char>, err: Seq<char>) -> Seq<char> {
    "Sample hex invalide '"@ + sample + "' : "@ + err
}

/// The error of `to_counts_all` for an unreadable sample of circuit `i`.
pub open spec fn invalid_pub_sample_msg(i: nat, sample: Seq<char>, err: Seq<char>) -> Seq<char> {
    "PUB "@ + decimal(i) + " — sample invalide '"@ + sample + "' : "@ + err
}

/// The error of `to_counts_all` for circuit `i` without samples.
pub open spec fn empty_pub_msg(i: nat) -> Seq<char> {
    "PUB "@ + decimal(i) + " : samples vide"@
}

/// What `to_counts` gives back: the histogram of the first circuit, or the
/// text of its error.
pub open spec fn counts_result(results: Seq<PubResult>) -> Result<Seq<(Seq<char>, nat)>, Seq<char>> {
    if results.len() == 0 {
        Err("results est vide"@)
    } else if results[0].data.c.samples@.len() == 0 {
        Err("samples est vide — aucune mesure disponible"@)
    } else {
        match register_counts(texts(results[0].data.c.samples@), results[0].data.c.num_bits) {
            Ok(t) => Ok(t),
            Err((smp, e)) => Err(invalid_sample_msg(smp, e)),
        }
    }
}

/// A register that has no sample, or a sample that cannot be read.
pub open spec fn register_fails(reg: ClassicalRegister) -> bool {
    reg.samples@.len() == 0 || register_counts(texts(reg.samples@), reg.num_bits) is Err
}

/// The error of `to_counts_all` for the failing register of circuit `i`.
pub open spec fn register_error(reg: ClassicalRegister, i: nat) -> Seq<char> {
    if reg.samples@.len() == 0 {
        empty_pub_msg(i)
    } else {
        invalid_pub_sample_msg(
            i,
            register_counts(texts(reg.samples@), reg.num_bits)->Err_0.0,
            register_counts(texts(reg.samples@), reg.num_bits)->Err_0.1,
        )
    }
}

/// What `to_counts_all` gives back: the error of the first failing circuit,
/// or else the histogram of every circuit, in order.
pub open spec fn counts_all_result(results: Seq<PubResult>) -> Result<Seq<Seq<(Seq<char>, nat)>>, Seq<char>> {
    if exists|i: int| 0 <= i < results.len() && register_fails(#[trigger] results[i].data.c) {
        let i = choose|i: int|
            0 <= i < results.len() && register_fails(#[trigger] results[i].data.c) && forall|j: int|
                0 <= j < i ==> !register_fails(#[trigger] results[j].data.c);
        Err(register_error(results[i].data.c, i as nat))
    } else {
        Ok(
            Seq::new(
                results.len(),
                |i: int|
                    register_counts(texts(results[i].data.c.samples@), results[i].data.c.num_bits)->Ok_0,
            ),
        )
    }
}

/// The models of a list of histograms.
pub open spec fn counts_models(all: Seq<Counts>) -> Seq<Seq<(Seq<char>, nat)>> {
    all.map_values(|c: Counts| counts_model(c@))
}

/// The first failing circuit decides the error of `to_counts_all`.
proof fn lemma_first_failing(results: Seq<PubResult>, i: int)
    requires
        0 <= i < results.len(),
        register_fails(results[i].data.c),
        forall|j: int| 0 <= j < i ==> !register_fails(#[trigger] results[j].data.c),
    ensures
        counts_all_result(results) == Err::<Seq<Seq<(Seq<char>, nat)>>, Seq<char>>(
            register_error(results[i].data.c, i as nat),
        ),
{
    let c = choose|c: int|
        0 <= c < results.len() && register_fails(#[trigger] results[c].data.c) && forall|j: int|
            0 <= j < c ==> !register_fails(#[trigger] results[j].data.c);
    assert(0 <= i < results.len() && register_fails(results[i].data.c) && forall|j: int|
        0 <= j < i ==> !register_fails(#[trigger] results[j].data.c));
    if c < i {
        assert(!register_fails(results[c].data.c));
    }
    if c > i {
        assert(!register_fails(results[i].data.c));
    }
    assert(c == i);
}

/// `to_counts_all` agrees with `to_counts`: without results it gives an
/// empty list; it fails exactly when some circuit has no sample or a sample
/// that is not a hexadecimal number; and a list it gives has one histogram
/// per circuit, the first being the one that `to_counts` gives.
pub proof fn lemma_counts_all_agrees(results: Seq<PubResult>)
    ensures
        results.len() == 0 ==> counts_all_result(results) == Ok::<Seq<Seq<(Seq<char>, nat)>>, Seq<char>>(
            Seq::empty(),
        ),
        counts_all_result(results) is Err <==> exists|i: int|
            0 <= i < results.len() && register_fails(#[trigger] results[i].data.c),
        counts_all_result(results) matches Ok(v) ==> v.len() == results.len() && (results.len() > 0
            ==> counts_result(results) == Ok::<Seq<(Seq<char>, nat)>, Seq<char>>(v[0])),
{
    if results.len() == 0 {
        let v = counts_all_result(results)->Ok_0;
        assert(v =~= Seq::<Seq<(Seq<char>, nat)>>::empty());
    }
    if counts_all_result(results) is Ok && results.len() > 0 {
        assert(!register_fails(results[0].data.c));
    }
}

/// The text of a number-reading error.
fn hex_error_message(e: &HexError) -> (r: &'static str)
    ensures
        r@ == hex_error_text(*e),
{
    match e {
        HexError::Empty => "cannot parse integer from empty string",
        HexError::InvalidDigit => "invalid digit found in string",
        HexError::PosOverflow => "number too large to fit in target type",
    }
}

fn hex_digit_of(c: char) -> (r: Option<u64>)
    ensures
        r matches Some(v) ==> hex_digit(c) == Some(v as nat),
        r is None ==> hex_digit(c) is None,
{
    if '0' <= c && c <= '9' {
        Some((c as u32 - '0' as u32) as u64)
    } else if 'a' <= c && c <= 'f' {
        Some((c as u32 - 'a' as u32 + 10) as u64)
    } else if 'A' <= c && c <= 'F' {
        Some((c as u32 - 'A' as u32 + 10) as u64)
    } else {
        None
    }
}

/// Reads a sample: its `0x` prefixes are removed, then the rest is read as
/// an unsigned hexadecimal number.
pub fn read_sample(sample: &str) -> (r: Result<u64, HexError>)
    ensures
        r matches Ok(v) ==> sample_value(sample@) == Ok::<nat, HexError>(v as nat),
        r matches Err(e) ==> sample_value(sample@) == Err::<nat, HexError>(e),
{
    let s = chars_of(sample);
    let mut start: usize = 0;
    assert(s@.subrange(0, s@.len() as int) =~= s@);
    while start < s.len() && start + 1 < s.len() && s[start] == '0' && s[start + 1] == 'x'
        invariant
            start <= s@.len(),
            strip_0x(s@.subrange(start as int, s@.len() as int)) == strip_0x(s@),
        decreases s@.len() - start,
    {
        assert(s@.subrange(start as int, s@.len() as int).subrange(2, s@.len() - start) =~= s@.subrange(
            start + 2,
            s@.len() as int,
        ));
        start += 2;
    }
    let ghost d = s@.subrange(start as int, s@.len() as int);
    assert(strip_0x(d) == d);
    assert(d == strip_0x(sample@));
    let n = s.len();
    if start == n {
        return Err(HexError::Empty);
    }
    let mut i = start;
    if s[start] == '+' {
        if start + 1 == n {
            return Err(HexError::InvalidDigit);
        }
        i = start + 1;
    }
    let mut acc: u64 = 0;
    assert(parse_hex(d) == hex_from(d, (i - start) as int, 0));
    while i < n
        invariant
            start <= i <= n,
            n == s@.len(),
            d == s@.subrange(start as int, n as int),
            d == strip_0x(sample@),
            parse_hex(d) == hex_from(d, (i - start) as int, acc as nat),
        decreases n - i,
    {
        assert(d[(i - start) as int] == s@[i as int]);
        match hex_digit_of(s[i]) {
            None => {
                assert(hex_from(d, (i - start) as int, acc as nat) == Err::<nat, HexError>(HexError::InvalidDigit));
                return Err(HexError::InvalidDigit);
            },
            Some(x) => {
                if acc > (u64::MAX - x) / 16 {
                    assert(acc * 16 + x > u64::MAX) by (nonlinear_arith)
                        requires
                            acc > (u64::MAX - x) / 16,
                            x <= 15,
                    ;
                    assert(hex_from(d, (i - start) as int, acc as nat) == Err::<nat, HexError>(HexError::PosOverflow));
                    return Err(HexError::PosOverflow);
                }
                assert(acc * 16 + x <= u64::MAX) by (nonlinear_arith)
                    requires
                        acc <= (u64::MAX - x) / 16,
                        x <= 15,
                ;
                acc = acc * 16 + x;
            },
        }
        i += 1;
    }
    Ok(acc)
}

/// The number of binary digits of `n`.
fn bits_of(n: u64) -> (r: usize)
    ensures
        r == bit_length(n as nat),
{
    proof {
        vstd::arithmetic::power2::lemma2_to64();
        lemma_bit_length_pow(n as nat, 64);
    }
    let mut m = n;
    let mut k: usize = 0;
    while m > 0
        invariant
            bit_length(n as nat) == k + bit_length(m as nat),
            bit_length(n as nat) <= 64,
        decreases m,
    {
        m = m / 2;
        k += 1;
    }
    k
}

/// A number below `2^k` has at most `k` binary digits.
proof fn lemma_bit_length_pow(n: nat, k: nat)
    requires
        n < vstd::arithmetic::power2::pow2(k),
    ensures
        bit_length(n) <= k,
    decreases k,
{
    if n > 0 {
        if k == 0 {
            vstd::arithmetic::power2::lemma2_to64();
        } else {
            vstd::arithmetic::power2::lemma_pow2_unfold(k);
            lemma_bit_length_pow(n / 2, (k - 1) as nat);
        }
    }
}

/// The largest value among the samples that can be read.
fn max_sample(samples: &Vec<String>) -> (r: u64)
    ensures
        r == max_valid(texts(samples@)),
{
    let ghost t = texts(samples@);
    let mut m: u64 = 0;
    let mut i: usize = 0;
    while i < samples.len()
        invariant
            i <= samples@.len(),
            t == texts(samples@),
            m == max_valid(t.take(i as int)),
        decreases samples@.len() - i,
    {
        assert(t.take(i + 1).drop_last() =~= t.take(i as int));
        assert(t.take(i + 1).last() == samples@[i as int]@);
        match read_sample(samples[i].as_str()) {
            Ok(v) => {
                if v > m {
                    m = v;
                }
            },
            Err(_) => {},
        }
        i += 1;
    }
    assert(t.take(i as int) =~= t);
    m
}

/// The width of the bitstrings of a register.
fn width_of(reg: &ClassicalRegister) -> (r: usize)
    ensures
        r == register_width(texts(reg.samples@), reg.num_bits),
{
    if reg.num_bits > 0 {
        reg.num_bits as usize
    } else {
        let m = max_sample(&reg.samples);
        if m == 0 {
            1
        } else {
            bits_of(m)
        }
    }
}

/// The position of `key` in the histogram, searched from its end.
fn find_key(counts: &Vec<(String, u32)>, key: &String) -> (r: Option<usize>)
    ensures
        r matches Some(i) ==> index_of_key(counts_model(counts@), key@) == Some(i as int),
        r is None ==> index_of_key(counts_model(counts@), key@) is None,
{
    let ghost t = counts_model(counts@);
    let mut j: usize = counts.len();
    assert(t.take(j as int) =~= t);
    while j > 0
        invariant
            j <= counts@.len(),
            t == counts_model(counts@),
            index_of_key(t, key@) == index_of_key(t.take(j as int), key@),
        decreases j,
    {
        let ghost tj = t.take(j as int);
        assert(tj.drop_last() =~= t.take(j - 1));
        assert(tj.last() == t[j - 1]);
        if counts[j - 1].0 == *key {
            return Some(j - 1);
        }
        j -= 1;
    }
    None
}

/// A key found in a histogram stands at the position given.
pub proof fn lemma_index_of_key(t: Seq<(Seq<char>, nat)>, k: Seq<char>)
    ensures
        index_of_key(t, k) matches Some(i) ==> 0 <= i < t.len() && t[i].0 == k,
        index_of_key(t, k) is None ==> forall|i: int| 0 <= i < t.len() ==> (#[trigger] t[i]).0 != k,
    decreases t.len(),
{
    if t.len() > 0 {
        lemma_index_of_key(t.drop_last(), k);
        if t.last().0 != k {
            assert forall|i: int| 0 <= i < t.len() && index_of_key(t, k) is None implies (#[trigger] t[i]).0 != k by {
                if i < t.len() - 1 {
                    assert(t.drop_last()[i] == t[i]);
                }
            }
            if index_of_key(t, k) is Some {
                let i = index_of_key(t, k)->Some_0;
                assert(t.drop_last()[i] == t[i]);
            }
        }
    }
}

/// Counts one more occurrence of `key`.
fn add_key(counts: &mut Vec<(String, u32)>, key: String, bound: Ghost<nat>)
    requires
        forall|i: int| 0 <= i < old(counts)@.len() ==> #[trigger] old(counts)@[i].1 <= bound@,
        bound@ < u32::MAX,
    ensures
        counts_model(final(counts)@) == match index_of_key(counts_model(old(counts)@), key@) {
            Some(i) => counts_model(old(counts)@).update(i, (key@, counts_model(old(counts)@)[i].1 + 1)),
            None => counts_model(old(counts)@).push((key@, 1nat)),
        },
        forall|i: int| 0 <= i < final(counts)@.len() ==> #[trigger] final(counts)@[i].1 <= bound@ + 1,
{
    let ghost t = counts_model(counts@);
    proof {
        lemma_index_of_key(t, key@);
    }
    match find_key(counts, &key) {
        Some(i) => {
            let c = counts[i].1;
            let ghost k = counts@[i as int].0;
            assert(t[i as int].0 == key@);
            counts.set(i, (key, c + 1));
            assert(counts_model(counts@) =~= t.update(i as int, (key@, t[i as int].1 + 1)));
        },
        None => {
            let ghost kv = key@;
            counts.push((key, 1));
            assert(counts_model(counts@) =~= t.push((kv, 1nat)));
        },
    }
}

/// The histogram of a register, or the first sample that cannot be read and
/// its error.
fn count_register(reg: &ClassicalRegister) -> (r: Result<Vec<(String, u32)>, (String, HexError)>)
    requires
        reg.samples@.len() < u32::MAX,
    ensures
        match register_counts(texts(reg.samples@), reg.num_bits) {
            Ok(t) => r matches Ok(c) && counts_model(c@) == t,
            Err((smp, e)) => r matches Err((s2, e2)) && s2@ == smp && hex_error_text(e2) == e,
        },
{
    let ghost t = texts(reg.samples@);
    let w = width_of(reg);
    let mut counts: Vec<(String, u32)> = Vec::new();
    let mut i: usize = 0;
    while i < reg.samples.len()
        invariant
            i <= reg.samples@.len(),
            reg.samples@.len() < u32::MAX,
            t == texts(reg.samples@),
            w == register_width(t, reg.num_bits),
            forall|j: int| 0 <= j < i ==> sample_value(#[trigger] t[j]) is Ok,
            counts_model(counts@) == tally(bitstrings(t.take(i as int), w as nat)),
            forall|j: int| 0 <= j < counts@.len() ==> #[trigger] counts@[j].1 <= i,
        decreases reg.samples@.len() - i,
    {
        let sample = &reg.samples[i];
        match read_sample(sample.as_str()) {
            Err(e) => {
                proof {
                    assert(t[i as int] == sample@);
                    let c = choose|c: int| 0 <= c < t.len() && sample_value(#[trigger] t[c]) is Err && forall|j: int|
                        0 <= j < c ==> sample_value(#[trigger] t[j]) is Ok;
                    assert(forall|j: int| 0 <= j < i ==> sample_value(#[trigger] t[j]) is Ok);
                    assert(sample_value(t[i as int]) is Err);
                    if c < i {
                        assert(sample_value(t[c]) is Ok);
                    }
                    if c > i {
                        assert(sample_value(t[i as int]) is Ok);
                    }
                    assert(first_invalid(t) == Some(i as int));
                }
                return Err((sample.clone(), e));
            },
            Ok(v) => {
                let key = to_bitstring(v, w);
                proof {
                    let b = bitstrings(t.take(i + 1), w as nat);
                    assert(t.take(i + 1).drop_last() =~= t.take(i as int));
                    assert(b.drop_last() =~= bitstrings(t.take(i as int), w as nat));
                    assert(t[i as int] == sample@);
                    assert(b.last() == key@);
                }
                add_key(&mut counts, key, Ghost(i as nat));
                i += 1;
            },
        }
    }
    proof {
        assert(t.take(i as int) =~= t);
        assert(!(exists|j: int| 0 <= j < t.len() && sample_value(#[trigger] t[j]) is Err));
    }
    Ok(counts)
}

impl ResultRoot {
    /// The histogram of the first circuit's samples: each sample, read as a
    /// hexadecimal number, is written in binary on the register's width
    /// (from `num_bits`, else from the largest sample), and the shots of each
    /// bitstring are counted.
    ///
    /// Fails when there is no result, when the first circuit has no sample,
    /// or on the first sample that is not a hexadecimal number.
    ///
    /// Without `num_bits`, the width is the exact number of binary digits of
    /// the largest sample (see `register_width`), which a floating-point
    /// logarithm may exceed by one for samples of 2^53 and more.
    pub fn to_counts(&self) -> (r: Result<Counts, String>)
        requires
            self.results@.len() > 0 ==> self.results@[0].data.c.samples@.len() < u32::MAX,
        ensures
            self.results@.len() == 0 ==> r is Err && r->Err_0@ == "results est vide"@,
            self.results@.len() > 0 && self.results@[0].data.c.samples@.len() == 0 ==> r is Err && r->Err_0@
                == "samples est vide — aucune mesure disponible"@,
            self.results@.len() > 0 && self.results@[0].data.c.samples@.len() > 0 ==> {
                let reg = self.results@[0].data.c;
                match register_counts(texts(reg.samples@), reg.num_bits) {
                    Ok(t) => r is Ok && counts_model(r->Ok_0@) == t,
                    Err((smp, e)) => r is Err && r->Err_0@ == invalid_sample_msg(smp, e),
                }
            },
            r matches Ok(c) ==> counts_result(self.results@) == Ok::<Seq<(Seq<char>, nat)>, Seq<char>>(
                counts_model(c@),
            ),
            r matches Err(m) ==> counts_result(self.results@) == Err::<Seq<(Seq<char>, nat)>, Seq<char>>(m@),
    {
        if self.results.len() == 0 {
            return Err("results est vide".to_owned());
        }
        let register = &self.results[0].data.c;
        if register.samples.len() == 0 {
            return Err("samples est vide — aucune mesure disponible".to_owned());
        }
        match count_register(register) {
            Ok(c) => Ok(c),
            Err((sample, e)) => {
                let mut m = String::new();
                push_str(&mut m, "Sample hex invalide '");
                push_str(&mut m, sample.as_str());
                push_str(&mut m, "' : ");
                push_str(&mut m, hex_error_message(&e));
                Err(m)
            },
        }
    }

    /// The histograms of every circuit's samples, in order, as `to_counts`
    /// makes that of the first.
    ///
    /// Fails on the first circuit without samples or with a sample that is
    /// not a hexadecimal number.
    pub fn to_counts_all(&self) -> (r: Result<Vec<Counts>, String>)
        requires
            forall|i: int| 0 <= i < self.results@.len() ==> (#[trigger] self.results@[i]).data.c.samples@.len() < u32::MAX,
        ensures
            r matches Ok(all) ==> all@.len() == self.results@.len() && forall|i: int|
                0 <= i < all@.len() ==> {
                    let reg = #[trigger] self.results@[i].data.c;
                    &&& reg.samples@.len() > 0
                    &&& register_counts(texts(reg.samples@), reg.num_bits) == Ok::<
                        Seq<(Seq<char>, nat)>,
                        (Seq<char>, Seq<char>),
                    >(counts_model(all@[i]@))
                },
            r matches Err(m) ==> exists|i: int|
                0 <= i < self.results@.len() && (forall|j: int|
                    0 <= j < i ==> #[trigger] self.results@[j].data.c.samples@.len() > 0 && register_counts(
                        texts(self.results@[j].data.c.samples@),
                        self.results@[j].data.c.num_bits,
                    ) is Ok) && ({
                    let reg = #[trigger] self.results@[i].data.c;
                    ||| reg.samples@.len() == 0 && m@ == empty_pub_msg(i as nat)
                    ||| reg.samples@.len() > 0 && register_counts(texts(reg.samples@), reg.num_bits) is Err && m@
                        == invalid_pub_sample_msg(
                        i as nat,
                        register_counts(texts(reg.samples@), reg.num_bits)->Err_0.0,
                        register_counts(texts(reg.samples@), reg.num_bits)->Err_0.1,
                    )
                }),
            r matches Ok(all) ==> counts_all_result(self.results@) == Ok::<
                Seq<Seq<(Seq<char>, nat)>>,
                Seq<char>,
            >(counts_models(all@)),
            r matches Err(m) ==> counts_all_result(self.results@) == Err::<Seq<Seq<(Seq<char>, nat)>>, Seq<char>>(
                m@,
            ),
    {
        let mut all: Vec<Counts> = Vec::new();
        let mut i: usize = 0;
        while i < self.results.len()
            invariant
                i <= self.results@.len(),
                forall|k: int| 0 <= k < self.results@.len() ==> (#[trigger] self.results@[k]).data.c.samples@.len() < u32::MAX,
                all@.len() == i,
                forall|k: int|
                    0 <= k < i ==> {
                        let reg = #[trigger] self.results@[k].data.c;
                        &&& reg.samples@.len() > 0
                        &&& register_counts(texts(reg.samples@), reg.num_bits) == Ok::<
                            Seq<(Seq<char>, nat)>,
                            (Seq<char>, Seq<char>),
                        >(counts_model(all@[k]@))
                    },
            decreases self.results@.len() - i,
        {
            let register = &self.results[i].data.c;
            if register.samples.len() == 0 {
                let mut m = String::new();
                push_str(&mut m, "PUB ");
                push_decimal(&mut m, i as u64);
                push_str(&mut m, " : samples vide");
                assert(m@ =~= empty_pub_msg(i as nat));
                proof {
                    lemma_first_failing(self.results@, i as int);
                }
                return Err(m);
            }
            match count_register(register) {
                Ok(c) => {
                    all.push(c);
                },
                Err((sample, e)) => {
                    let mut m = String::new();
                    push_str(&mut m, "PUB ");
                    push_decimal(&mut m, i as u64);
                    push_str(&mut m, " — sample invalide '");
                    push_str(&mut m, sample.as_str());
                    push_str(&mut m, "' : ");
                    push_str(&mut m, hex_error_message(&e));
                    assert(m@ =~= invalid_pub_sample_msg(i as nat, sample@, hex_error_text(e)));
                    proof {
                        lemma_first_failing(self.results@, i as int);
                    }
                    return Err(m);
                },
            }
            i += 1;
        }
        proof {
            let rs = self.results@;
            assert forall|k: int| 0 <= k < rs.len() implies !register_fails(#[trigger] rs[k].data.c) by {
                let reg = rs[k].data.c;
                assert(register_counts(texts(reg.samples@), reg.num_bits) is Ok);
            }
            let want = Seq::new(
                rs.len(),
                |k: int| register_counts(texts(rs[k].data.c.samples@), rs[k].data.c.num_bits)->Ok_0,
            );
            assert(counts_models(all@) =~= want);
        }
        Ok(all)
    }
}

/// The number of occurrences of `k` in `keys`.
pub open spec fn occurrences(keys: Seq<Seq<char>>, k: Seq<char>) -> nat
    decreases keys.len(),
{
    if keys.len() == 0 {
        0
    } else {
        occurrences(keys.drop_last(), k) + if keys.last() == k {
            1nat
        } else {
            0nat
        }
    }
}

/// The sum of the counts of a histogram.
pub open spec fn total(t: Seq<(Seq<char>, nat)>) -> nat
    decreases t.len(),
{
    if t.len() == 0 {
        0
    } else {
        total(t.drop_last()) + t.last().1
    }
}

proof fn lemma_total_update(t: Seq<(Seq<char>, nat)>, i: int, x: (Seq<char>, nat))
    requires
        0 <= i < t.len(),
    ensures
        total(t.update(i, x)) == total(t) - t[i].1 + x.1,
    decreases t.len(),
{
    if i == t.len() - 1 {
        assert(t.update(i, x).drop_last() =~= t.drop_last());
    } else {
        lemma_total_update(t.drop_last(), i, x);
        assert(t.update(i, x).drop_last() =~= t.drop_last().update(i, x));
    }
}

/// A histogram has each key once; its count for each key is the number of
/// occurrences of that key; every key occurs; and its counts add up to the
/// number of keys.
pub proof fn lemma_tally(keys: Seq<Seq<char>>)
    ensures
        forall|i: int, j: int| 0 <= i < j < tally(keys).len() ==> tally(keys)[i].0 != tally(keys)[j].0,
        forall|i: int| 0 <= i < tally(keys).len() ==> (#[trigger] tally(keys)[i]).1 == occurrences(keys, tally(keys)[i].0),
        forall|k: Seq<char>| occurrences(keys, k) > 0 ==> #[trigger] index_of_key(tally(keys), k) is Some,
        total(tally(keys)) == keys.len(),
    decreases keys.len(),
{
    if keys.len() > 0 {
        let rest = keys.drop_last();
        let t = tally(rest);
        let k = keys.last();
        lemma_tally(rest);
        lemma_index_of_key(t, k);
        match index_of_key(t, k) {
            Some(i) => {
                lemma_total_update(t, i, (k, t[i].1 + 1));
                let t2 = tally(keys);
                assert(t2 == t.update(i, (k, t[i].1 + 1)));
                assert forall|kk: Seq<char>| occurrences(keys, kk) > 0 implies #[trigger] index_of_key(t2, kk) is Some by {
                    lemma_index_of_key(t2, kk);
                    if kk == k {
                        assert(t2[i].0 == k);
                    } else {
                        assert(occurrences(rest, kk) > 0);
                        lemma_index_of_key(t, kk);
                        let j = index_of_key(t, kk)->Some_0;
                        assert(t2[j].0 == kk);
                    }
                }
            },
            None => {
                let t2 = tally(keys);
                assert(t2 == t.push((k, 1nat)));
                assert(t2.drop_last() =~= t);
                assert forall|kk: Seq<char>| occurrences(keys, kk) > 0 implies #[trigger] index_of_key(t2, kk) is Some by {
                    lemma_index_of_key(t2, kk);
                    if kk != k {
                        assert(occurrences(rest, kk) > 0);
                        lemma_index_of_key(t, kk);
                        let j = index_of_key(t, kk)->Some_0;
                        assert(t2[j].0 == kk);
                    }
                }
                assert forall|j: int| 0 <= j < t.len() implies (#[trigger] t[j]).0 != k by {}
                if occurrences(rest, k) > 0 {
                    assert(index_of_key(t, k) is Some);
                }
            },
        }
    }
}

} // verus!
