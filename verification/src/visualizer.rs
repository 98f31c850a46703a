//! The integer and text logic of the result views: the dominant state of a
//! histogram, the escaping of a circuit's text for HTML, and the circuit
//! submitted with a job, read from the job's parameters.

use vstd::prelude::*;
use crate::text::{chars_of, push_char, push_str};

verus! {

/// The shape of a JSON value, as far as the circuit of a job is read from it.
pub enum JsonShape {
    /// A string.
    Text(String),
    /// An array of values.
    Array(Vec<JsonShape>),
    /// Any other value.
    Other,
}

/// The circuit text carried by the first parameter of a job: the parameter
/// itself when it is a string, else the first element of an array when that
/// element is a string.
pub open spec fn submitted_qasm_spec(pubs: Seq<JsonShape>) -> Option<Seq<char>> {
    if pubs.len() == 0 {
        None
    } else {
        match pubs[0] {
            JsonShape::Text(s) => Some(s@),
            JsonShape::Array(items) => if items@.len() > 0 && items@[0] is Text {
                Some(items@[0]->Text_0@)
            } else {
                None
            },
            JsonShape::Other => None,
        }
    }
}

/// The circuit text submitted with a job, read from the job's parameters
/// (either a string or an array whose first element is the string).
pub fn submitted_qasm(pubs: &Vec<JsonShape>) -> (r: Option<String>)
    ensures
        r is Some <==> submitted_qasm_spec(pubs@) is Some,
        r matches Some(q) ==> q@ == submitted_qasm_spec(pubs@)->Some_0,
{
    if pubs.len() == 0 {
        return None;
    }
    match &pubs[0] {
        JsonShape::Text(s) => Some(s.clone()),
        JsonShape::Array(items) => {
            if items.len() > 0 {
                match &items[0] {
                    JsonShape::Text(s) => Some(s.clone()),
                    _ => None,
                }
            } else {
                None
            }
        },
        JsonShape::Other => None,
    }
}

/// The state of largest count; among equal counts, the last one.
pub open spec fn is_dominant(counts: Seq<(String, u32)>, i: int) -> bool {
    &&& 0 <= i < counts.len()
    &&& forall|j: int| 0 <= j < counts.len() ==> #[trigger] counts[j].1 <= counts[i].1
    &&& forall|j: int| i < j < counts.len() ==> #[trigger] counts[j].1 < counts[i].1
}

/// The position of the dominant state of a histogram: the one of largest
/// count, the last of them where several share it; none for an empty one.
pub fn dominant_state(counts: &Vec<(String, u32)>) -> (r: Option<usize>)
    ensures
        r is None <==> counts@.len() == 0,
        r matches Some(i) ==> is_dominant(counts@, i as int),
{
    if counts.len() == 0 {
        return None;
    }
    let mut best: usize = 0;
    let mut i: usize = 1;
    while i < counts.len()
        invariant
            1 <= i <= counts@.len(),
            is_dominant(counts@.take(i as int), best as int),
        decreases counts@.len() - i,
    {
        let ghost prev = counts@.take(i as int);
        if counts[i].1 >= counts[best].1 {
            best = i;
        }
        proof {
            let next = counts@.take(i + 1);
            assert forall|j: int| 0 <= j < next.len() implies #[trigger] next[j].1 <= next[best as int].1 by {
                if j < i {
                    assert(next[j] == prev[j]);
                }
            }
            assert forall|j: int| best < j < next.len() implies #[trigger] next[j].1 < next[best as int].1 by {
                if j < i {
                    assert(next[j] == prev[j]);
                }
            }
        }
        i += 1;
    }
    assert(counts@.take(i as int) =~= counts@);
    Some(best)
}

/// The HTML form of a character: `&`, `<` and `>` become entities.
pub open spec fn escape_char(c: char) -> Seq<char> {
    if c == '&' {
        "&amp;"@
    } else if c == '<' {
        "&lt;"@
    } else if c == '>' {
        "&gt;"@
    } else {
        seq![c]
    }
}

/// The HTML form of a text, character by character.
pub open spec fn escaped(s: Seq<char>) -> Seq<char>
    decreases s.len(),
{
    if s.len() == 0 {
        Seq::empty()
    } else {
        escaped(s.drop_last()) + escape_char(s.last())
    }
}

/// The text with `&`, `<` and `>` written as HTML entities, so that it
/// shows as written inside a page.
pub fn escape_html(text: &str) -> (r: String)
    ensures
        r@ == escaped(text@),
{
    let cs = chars_of(text);
    let mut out = String::new();
    let mut i: usize = 0;
    while i < cs.len()
        invariant
            i <= cs@.len(),
            cs@ == text@,
            out@ == escaped(cs@.take(i as int)),
        decreases cs@.len() - i,
    {
        let c = cs[i];
        if c == '&' {
            push_str(&mut out, "&amp;");
        } else if c == '<' {
            push_str(&mut out, "&lt;");
        } else if c == '>' {
            push_str(&mut out, "&gt;");
        } else {
            push_char(&mut out, c);
        }
        proof {
            assert(cs@.take(i + 1).drop_last() =~= cs@.take(i as int));
            assert(cs@.take(i + 1).last() == c);
        }
        i += 1;
    }
    assert(cs@.take(i as int) =~= cs@);
    out
}

/// `a` comes before `b` in the order of `str`: at the first character where
/// they differ the smaller code point comes first, and a proper prefix comes
/// before the longer text.
pub open spec fn text_lt(a: Seq<char>, b: Seq<char>) -> bool
    decreases a.len(),
{
    if b.len() == 0 {
        false
    } else if a.len() == 0 {
        true
    } else if a[0] != b[0] {
        (a[0] as int) < (b[0] as int)
    } else {
        text_lt(a.drop_first(), b.drop_first())
    }
}

/// The order of texts is strict: no text comes before itself, and of two
/// texts at most one comes before the other.
pub proof fn lemma_text_lt_asymmetric(a: Seq<char>, b: Seq<char>)
    ensures
        text_lt(a, b) ==> !text_lt(b, a),
        !text_lt(a, a),
    decreases a.len(),
{
    if a.len() > 0 && b.len() > 0 && a[0] == b[0] {
        lemma_text_lt_asymmetric(a.drop_first(), b.drop_first());
    }
    if a.len() > 0 {
        lemma_text_lt_asymmetric(a.drop_first(), a.drop_first());
    }
}

/// Of two different texts, one comes before the other.
pub proof fn lemma_text_lt_total(a: Seq<char>, b: Seq<char>)
    ensures
        a != b ==> text_lt(a, b) || text_lt(b, a),
    decreases a.len(),
{
    if a.len() > 0 && b.len() > 0 && a[0] == b[0] {
        lemma_text_lt_total(a.drop_first(), b.drop_first());
        if a.drop_first() == b.drop_first() {
            assert(a =~= seq![a[0]] + a.drop_first());
            assert(b =~= seq![b[0]] + b.drop_first());
        }
    }
    if a.len() == 0 && b.len() == 0 {
        assert(a =~= b);
    }
}

/// The order of texts is transitive.
pub proof fn lemma_text_lt_transitive(a: Seq<char>, b: Seq<char>, c: Seq<char>)
    requires
        text_lt(a, b),
        text_lt(b, c),
    ensures
        text_lt(a, c),
    decreases a.len(),
{
    if a.len() > 0 && a[0] == b[0] && b[0] == c[0] {
        lemma_text_lt_transitive(a.drop_first(), b.drop_first(), c.drop_first());
    }
}

/// The code point of a character.
fn code_point(c: char) -> (r: u32)
    ensures
        r as int == c as int,
{
    c as u32
}

/// Whether `a` comes before `b` in the order of `str`.
fn text_less(a: &String, b: &String) -> (r: bool)
    ensures
        r == text_lt(a@, b@),
{
    let x = chars_of(a.as_str());
    let y = chars_of(b.as_str());
    let mut k: usize = 0;
    assert(a@.skip(0) =~= a@);
    assert(b@.skip(0) =~= b@);
    while k < x.len() && k < y.len()
        invariant
            k <= x@.len(),
            k <= y@.len(),
            x@ == a@,
            y@ == b@,
            text_lt(a@, b@) == text_lt(a@.skip(k as int), b@.skip(k as int)),
        decreases x@.len() - k,
    {
        assert(a@.skip(k as int)[0] == x@[k as int]);
        assert(b@.skip(k as int)[0] == y@[k as int]);
        let cx = x[k];
        let cy = y[k];
        if cx != cy {
            return code_point(cx) < code_point(cy);
        }
        assert(a@.skip(k as int).drop_first() =~= a@.skip(k + 1));
        assert(b@.skip(k as int).drop_first() =~= b@.skip(k + 1));
        k += 1;
    }
    k < y.len()
}

/// Every state of the histogram comes no later than the states after it.
pub open spec fn by_state(c: Seq<(String, u32)>) -> bool {
    forall|i: int, j: int| 0 <= i < j < c.len() ==> !text_lt(#[trigger] c[j].0@, #[trigger] c[i].0@)
}

/// The histogram ordered by state, as the views list it: the same entries,
/// each state no later than the ones after it.
pub fn sort_by_state(counts: Vec<(String, u32)>) -> (r: Vec<(String, u32)>)
    ensures
        r@.to_multiset() == counts@.to_multiset(),
        by_state(r@),
{
    broadcast use vstd::multiset::group_multiset_axioms, vstd::seq_lib::group_to_multiset_ensures;

    let ghost all = counts@;
    let mut rest = counts;
    let mut out: Vec<(String, u32)> = Vec::new();
    assert(out@.to_multiset() =~= vstd::multiset::Multiset::empty());
    while rest.len() > 0
        invariant
            out@.to_multiset().add(rest@.to_multiset()) == all.to_multiset(),
            by_state(out@),
        decreases rest@.len(),
    {
        let ghost before = rest@;
        let x = rest.pop().unwrap();
        assert(before == rest@.push(x));
        let mut p: usize = 0;
        while p < out.len()
            invariant
                p <= out@.len(),
                forall|q: int| 0 <= q < p ==> text_lt(#[trigger] out@[q].0@, x.0@),
            ensures
                p <= out@.len(),
                forall|q: int| 0 <= q < p ==> text_lt(#[trigger] out@[q].0@, x.0@),
                p < out@.len() ==> !text_lt(out@[p as int].0@, x.0@),
            decreases out@.len() - p,
        {
            if !text_less(&out[p].0, &x.0) {
                break;
            }
            p += 1;
        }
        let ghost old_out = out@;
        proof {
            assert forall|q: int| p <= q < old_out.len() implies !text_lt(#[trigger] old_out[q].0@, x.0@) by {
                if q > p {
                    assert(!text_lt(old_out[q].0@, old_out[p as int].0@));
                    lemma_text_lt_total(old_out[p as int].0@, old_out[q].0@);
                    if text_lt(old_out[q].0@, x.0@) {
                        if text_lt(old_out[p as int].0@, old_out[q].0@) {
                            lemma_text_lt_transitive(old_out[p as int].0@, old_out[q].0@, x.0@);
                        }
                    }
                }
            }
        }
        let ghost xv = x;
        out.insert(p, x);
        proof {
            assert(out@ == old_out.insert(p as int, xv));
            broadcast use vstd::multiset::group_multiset_axioms;

            vstd::seq_lib::to_multiset_insert(old_out, p as int, xv);
            vstd::seq_lib::to_multiset_build(rest@, xv);
            assert(before.to_multiset() == rest@.to_multiset().insert(xv));
            assert(out@.to_multiset().add(rest@.to_multiset()) =~= old_out.to_multiset().add(
                before.to_multiset(),
            ));
            let s = out@;
            assert(s == old_out.insert(p as int, xv));
            assert forall|i: int, j: int| 0 <= i < j < s.len() implies !text_lt(#[trigger] s[j].0@, #[trigger] s[i].0@) by {
                if i < p && j == p {
                    lemma_text_lt_asymmetric(old_out[i].0@, xv.0@);
                } else if i < p && j > p {
                    assert(s[j] == old_out[j - 1]);
                } else if i == p {
                    assert(s[j] == old_out[j - 1]);
                } else if i > p {
                    assert(s[i] == old_out[i - 1]);
                    assert(s[j] == old_out[j - 1]);
                }
            }
        }
    }
    assert(rest@.to_multiset() =~= vstd::multiset::Multiset::empty());
    out
}

} // verus!
