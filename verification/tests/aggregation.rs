use station_agg::pipeline::run;
use station_agg::render::render_table;
use station_agg::table::Table;

fn output(data: &[u8]) -> String {
    String::from_utf8(run(data, 64)).unwrap()
}

#[test]
fn single_record_round_trip() {
    assert_eq!(output(b"A;5.0"), "{A=5.0/5.0/5.0}\n");
}

#[test]
fn multi_record_same_name() {
    assert_eq!(output(b"A;1.0\nA;3.0\nA;2.0"), "{A=1.0/2.0/3.0}\n");
}

#[test]
fn empty_input_yields_empty_braces() {
    assert_eq!(output(b""), "{}\n");
}

#[test]
fn newline_only_input_yields_empty_braces() {
    assert_eq!(output(b"\n\n\n"), "{}\n");
}

#[test]
fn malformed_line_is_skipped() {
    assert_eq!(
        output(b"A;1.0\nnosemicolon\nB;2.0\n"),
        "{A=1.0/1.0/1.0, B=2.0/2.0/2.0}\n"
    );
}

#[test]
fn bad_value_token_is_skipped() {
    assert_eq!(output(b"A;1.0\nB;oops\nC;3.0"), "{A=1.0/1.0/1.0, C=3.0/3.0/3.0}\n");
}

#[test]
fn carriage_returns_are_tolerated() {
    assert_eq!(output(b"A;1.0\r\nB;2.0\r\n"), "{A=1.0/1.0/1.0, B=2.0/2.0/2.0}\n");
}

#[test]
fn empty_name_is_a_name() {
    assert_eq!(output(b";1.0"), "{=1.0/1.0/1.0}\n");
}

#[test]
fn value_token_with_second_separator_is_malformed() {
    assert_eq!(output(b"A;1.0;2.0\nB;3.0"), "{B=3.0/3.0/3.0}\n");
}

#[test]
fn negative_values_aggregate() {
    assert_eq!(output(b"A;-1.0\nA;2.0"), "{A=-1.0/0.5/2.0}\n");
}

#[test]
fn mean_rounds_ties_up_for_positive() {
    assert_eq!(output(b"A;0.0\nA;0.1"), "{A=0.0/0.1/0.1}\n");
}

#[test]
fn mean_rounds_ties_down_for_negative() {
    assert_eq!(output(b"A;0.0\nA;-0.1"), "{A=-0.1/-0.1/0.0}\n");
}

#[test]
fn from_chunk_then_render_matches_run() {
    let data = b"x;1.5\ny;-2.5\nx;3.5";
    let t = Table::from_chunk(data);
    let direct = String::from_utf8(render_table(t)).unwrap();
    assert_eq!(direct, output(data));
    assert_eq!(direct, "{x=1.5/2.5/3.5, y=-2.5/-2.5/-2.5}\n");
}

#[test]
fn merge_from_combines_tables() {
    let mut shared = Table::from_chunk(b"a;1.0\nb;2.0\n");
    let local = Table::from_chunk(b"b;4.0\nc;8.0\n");
    shared.merge_from(local);
    let out = String::from_utf8(render_table(shared)).unwrap();
    assert_eq!(out, "{a=1.0/1.0/1.0, b=2.0/3.0/4.0, c=8.0/8.0/8.0}\n");
}

#[test]
fn extreme_values_render() {
    assert_eq!(output(b"hot;999.9\ncold;-999.9"), "{cold=-999.9/-999.9/-999.9, hot=999.9/999.9/999.9}\n");
}
