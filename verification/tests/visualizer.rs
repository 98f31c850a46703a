use rusty_quantum::visualizer::{dominant_state, escape_html, sort_by_state, submitted_qasm, JsonShape};

fn hist(entries: &[(&str, u32)]) -> Vec<(String, u32)> {
    entries.iter().map(|(k, v)| (k.to_string(), *v)).collect()
}

#[test]
fn states_in_text_order() {
    let sorted = sort_by_state(hist(&[("11", 1), ("00", 2), ("10", 3), ("1", 4), ("01", 5)]));
    let keys: Vec<&str> = sorted.iter().map(|(k, _)| k.as_str()).collect();
    assert_eq!(keys, vec!["00", "01", "1", "10", "11"]);
    assert_eq!(sorted[3], ("10".to_string(), 3));
    assert!(sort_by_state(Vec::new()).is_empty());
}

#[test]
fn dominant_is_the_last_largest() {
    assert_eq!(dominant_state(&hist(&[("00", 5), ("01", 7), ("10", 7), ("11", 1)])), Some(2));
    assert_eq!(dominant_state(&hist(&[("00", 9), ("11", 1)])), Some(0));
    assert_eq!(dominant_state(&Vec::new()), None);
}

#[test]
fn html_escaping_of_circuits() {
    assert_eq!(escape_html("if (c<1 && d>0) x q[0];"), "if (c&lt;1 &amp;&amp; d&gt;0) x q[0];");
    assert_eq!(escape_html("h q[0];"), "h q[0];");
    assert_eq!(escape_html(""), "");
}

#[test]
fn circuit_of_a_job() {
    let text = JsonShape::Text("OPENQASM 3.0;".to_string());
    assert_eq!(submitted_qasm(&vec![text]), Some("OPENQASM 3.0;".to_string()));
    let arr = JsonShape::Array(vec![JsonShape::Text("qasm".to_string()), JsonShape::Other, JsonShape::Other]);
    assert_eq!(submitted_qasm(&vec![arr, JsonShape::Other]), Some("qasm".to_string()));
    assert_eq!(submitted_qasm(&vec![JsonShape::Array(vec![JsonShape::Other])]), None);
    assert_eq!(submitted_qasm(&vec![JsonShape::Array(vec![])]), None);
    assert_eq!(submitted_qasm(&vec![JsonShape::Other, JsonShape::Text("q".to_string())]), None);
    assert_eq!(submitted_qasm(&Vec::new()), None);
}
