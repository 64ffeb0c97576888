use vtt::parse_cue_payload;
use vtt::VttCueFragment;
use vtt::VttCuePayload;
use vtt::VttTimestamp;

fn ts(hours: u8, minutes: u8, seconds: u8, milliseconds: u16) -> VttTimestamp {
    VttTimestamp { hours, minutes, seconds, milliseconds }
}

fn text(s: &str) -> VttCueFragment {
    VttCueFragment::Text(s.to_string())
}

fn timed(t: VttTimestamp, s: &str) -> VttCueFragment {
    VttCueFragment::TimedText { timestamp: t, text: s.to_string() }
}

#[test]
fn karaoke_line() {
    let got = parse_cue_payload("when<00:00:00.199><c> I</c><00:00:00.280><c> started</c>");
    let want = vec![
        text("when"),
        timed(ts(0, 0, 0, 199), " I"),
        timed(ts(0, 0, 0, 280), " started"),
    ];
    assert_eq!(got, want);
}

#[test]
fn bare_timestamp_tag() {
    let got = parse_cue_payload("<00:00:01.000>");
    assert_eq!(got, vec![timed(ts(0, 0, 1, 0), "")]);
}

#[test]
fn invalid_tag_peeled_one_char() {
    let got = parse_cue_payload("a <b> b");
    assert_eq!(got, vec![text("a "), text("<"), text("b> b")]);
}

#[test]
fn unterminated_timed_span() {
    let got = parse_cue_payload("text <00:00:02.000><c>unterminated");
    assert_eq!(got, vec![text("text "), text("<c>unterminated")]);
}

#[test]
fn plain_text_single_fragment() {
    assert_eq!(parse_cue_payload("hello world"), vec![text("hello world")]);
    assert_eq!(parse_cue_payload("line one\nline two"), vec![text("line one\nline two")]);
}

#[test]
fn whitespace_only_payload_is_empty() {
    assert_eq!(parse_cue_payload(""), Vec::new());
    assert_eq!(parse_cue_payload("  \t \n "), Vec::new());
}

#[test]
fn whitespace_literal_between_tags_dropped() {
    let got = parse_cue_payload("<00:00:01.000> <00:00:02.000>");
    assert_eq!(got, vec![timed(ts(0, 0, 1, 0), ""), timed(ts(0, 0, 2, 0), "")]);
}

#[test]
fn unterminated_tag_kept_verbatim() {
    let got = parse_cue_payload("ab<cd");
    assert_eq!(got, vec![text("ab"), text("<cd")]);
}

#[test]
fn empty_timed_span() {
    let got = parse_cue_payload("<00:00:01.000><c></c>");
    assert_eq!(got, vec![timed(ts(0, 0, 1, 0), "")]);
}

#[test]
fn timed_span_must_follow_immediately() {
    // a gap between the timestamp tag and `<c>` leaves the `<c>` block
    // to be picked apart as literal text
    let got = parse_cue_payload("<00:00:01.000>x<c>y</c>");
    assert_eq!(
        got,
        vec![timed(ts(0, 0, 1, 0), ""), text("x"), text("<"), text("c>y"), text("<"), text("/c>")]
    );
}

#[test]
fn text_accessor_returns_construction_value() {
    assert_eq!(text("abc").text(), "abc");
    assert_eq!(timed(ts(0, 0, 0, 199), " I").text(), " I");
    assert_eq!(timed(ts(0, 0, 0, 199), "").text(), "");
    assert_eq!(text("").text(), "");
}

#[test]
fn fragment_render_forms() {
    assert_eq!(text("when").render(), "when");
    assert_eq!(timed(ts(0, 0, 0, 199), " I").render(), "<00:00:00.199><c> I</c>");
    assert_eq!(timed(ts(0, 0, 1, 0), "").render(), "<00:00:01.000><c></c>");
}

#[test]
fn payload_parse_matches_free_function() {
    let input = "when<00:00:00.199><c> I</c>";
    assert_eq!(VttCuePayload::parse(input).0, parse_cue_payload(input));
}

#[test]
fn render_then_reparse_is_stable() {
    let input = "when<00:00:00.199><c> I</c><00:00:00.280><c> started</c>";
    let payload = VttCuePayload::parse(input);
    let rendered = payload.render();
    assert_eq!(rendered, input);
    assert_eq!(VttCuePayload::parse(&rendered), payload);
}

#[test]
fn render_then_reparse_after_recovery() {
    // recovery fragments of a malformed payload render back to the very
    // same string, so one more parse/render cycle is stable
    let input = "a <b> b";
    let payload = VttCuePayload::parse(input);
    let rendered = payload.render();
    assert_eq!(rendered, input);
    assert_eq!(VttCuePayload::parse(&rendered), payload);
}

#[test]
fn reparse_differs_after_unterminated_span() {
    // the unterminated `<c>` block swallows its timestamp tag, so the
    // rendered form re-parses into different fragments
    let payload = VttCuePayload::parse("text <00:00:02.000><c>unterminated");
    let rendered = payload.render();
    assert_eq!(rendered, "text <c>unterminated");
    let again = VttCuePayload::parse(&rendered);
    assert_eq!(again.0, vec![text("text "), text("<"), text("c>unterminated")]);
}

#[test]
fn whitespace_tail_after_malformed_tag_kept() {
    // the verbatim tail of an unterminated tag is emitted even when it is
    // all whitespace, unlike ordinary literals between tags
    let got = parse_cue_payload("<00:00:01.000><c> ");
    assert_eq!(got, vec![text("<c> ")]);
}
