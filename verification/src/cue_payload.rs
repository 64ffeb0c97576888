//! The fragment model of a cue payload and the payload parser.
//!
//! A payload string is cut into an ordered sequence of fragments: literal
//! text, and karaoke spans `<timestamp><c>text</c>` anchored to a
//! timestamp.  The parser is total: malformed markup degrades into literal
//! text instead of failing.

use crate::scan::all_ws;
use crate::scan::close_marker;
use crate::scan::find_char;
use crate::scan::find_close_marker;
use crate::scan::find_pat;
use crate::scan::is_all_ws;
use crate::scan::lemma_find_pat_at;
use crate::scan::lemma_find_pat_props;
use crate::scan::lemma_occurs_four;
use crate::scan::lemma_occurs_single;
use crate::scan::occurs_at;
use crate::timestamp::timestamp_chars;
use crate::timestamp::timestamp_of_chars;
use crate::timestamp::VttTimestamp;
use vstd::prelude::*;

verus! {

/// A segment of a cue's payload.
#[derive(Clone, PartialEq, Eq, Debug)]
pub enum VttCueFragment {
    /// A literal text fragment.
    Text(String),
    /// A fragment that becomes active at `timestamp` and carries `text`.
    TimedText { timestamp: VttTimestamp, text: String },
}

/// The mathematical form of a fragment: the same two variants over
/// character sequences.
pub enum FragmentModel {
    Text(Seq<char>),
    TimedText(VttTimestamp, Seq<char>),
}

impl View for VttCueFragment {
    type V = FragmentModel;

    open spec fn view(&self) -> FragmentModel {
        match self {
            VttCueFragment::Text(t) => FragmentModel::Text(t@),
            VttCueFragment::TimedText { timestamp, text } => FragmentModel::TimedText(
                *timestamp,
                text@,
            ),
        }
    }
}

/// The text a fragment carries, in either variant.
pub open spec fn fragment_text(f: FragmentModel) -> Seq<char> {
    match f {
        FragmentModel::Text(t) => t,
        FragmentModel::TimedText(ts, t) => t,
    }
}

/// The models of a sequence of fragments.
pub open spec fn fragments_view(v: Seq<VttCueFragment>) -> Seq<FragmentModel> {
    v.map_values(|f: VttCueFragment| f@)
}

impl VttCueFragment {
    /// The fragment's text content, regardless of variant.
    pub fn text(&self) -> (r: &str)
        ensures
            r@ == fragment_text(self@),
    {
        match self {
            VttCueFragment::Text(text) => text.as_str(),
            VttCueFragment::TimedText { text, .. } => text.as_str(),
        }
    }
}

/// The markup a fragment renders to: literal text as itself, a timed
/// fragment as `<` timestamp `><c>` text `</c>`.
pub open spec fn render_fragment(f: FragmentModel) -> Seq<char> {
    match f {
        FragmentModel::Text(t) => t,
        FragmentModel::TimedText(ts, t) => seq!['<'] + timestamp_chars(ts) + seq!['>', '<', 'c', '>']
            + t + close_marker(),
    }
}

/// The concatenated markup of a fragment sequence.
pub open spec fn render_fragments(fs: Seq<FragmentModel>) -> Seq<char>
    decreases fs.len(),
{
    if fs.len() == 0 {
        Seq::empty()
    } else {
        render_fragment(fs[0]) + render_fragments(fs.drop_first())
    }
}

/// The fragments a literal span contributes: none when it is all
/// whitespace, else itself.
pub open spec fn literal_fragments(t: Seq<char>) -> Seq<FragmentModel> {
    if all_ws(t) {
        Seq::empty()
    } else {
        seq![FragmentModel::Text(t)]
    }
}

/// Whether `s` starts with the marker `<c>`.
pub open spec fn starts_with_c(s: Seq<char>) -> bool {
    s.len() >= 3 && s[0] == '<' && s[1] == 'c' && s[2] == '>'
}

/// The fragments of a payload.  The payload up to the first `<` is a
/// literal span; from the `<` on, `parse_tag` takes over.  A payload with
/// no `<` is one literal span (dropped when all whitespace).
pub open spec fn parse_fragments(s: Seq<char>) -> Seq<FragmentModel>
    decreases s.len(), 1int,
{
    match find_pat(s, seq!['<']) {
        Some(i) => {
            // a found position always lies inside the string; the guard
            // keeps the recursion well-founded
            if 0 <= i < s.len() {
                literal_fragments(s.subrange(0, i)) + parse_tag(s.subrange(i, s.len() as int))
            } else {
                Seq::empty()
            }
        },
        None => literal_fragments(s),
    }
}

/// The fragments of a suffix that starts at a `<`.  With no closing `>`
/// the suffix is one verbatim literal.  A tag whose content is a timestamp
/// either pairs with an immediately following `<c>` block (verbatim tail
/// when the block never closes), or yields a timed fragment with empty
/// text.  Any other tag content surrenders the single `<` as a literal and
/// scanning resumes one character later.
pub open spec fn parse_tag(rest: Seq<char>) -> Seq<FragmentModel>
    decreases rest.len(), 0int,
{
    match find_pat(rest, seq!['>']) {
        None => seq![FragmentModel::Text(rest)],
        Some(j) => {
            if 1 <= j < rest.len() {
                match timestamp_of_chars(rest.subrange(1, j)) {
                    None => seq![FragmentModel::Text(seq!['<'])] + parse_fragments(
                        rest.subrange(1, rest.len() as int),
                    ),
                    Some(ts) => {
                        let after = rest.subrange(j + 1, rest.len() as int);
                        if starts_with_c(after) {
                            match find_pat(after, close_marker()) {
                                Some(k) => {
                                    if 3 <= k && k + 4 <= after.len() {
                                        seq![FragmentModel::TimedText(ts, after.subrange(3, k))]
                                            + parse_fragments(
                                            after.subrange(k + 4, after.len() as int),
                                        )
                                    } else {
                                        Seq::empty()
                                    }
                                },
                                None => seq![FragmentModel::Text(after)],
                            }
                        } else {
                            seq![FragmentModel::TimedText(ts, Seq::empty())] + parse_fragments(
                                after,
                            )
                        }
                    },
                }
            } else {
                Seq::empty()
            }
        },
    }
}

impl VttCueFragment {
    /// Renders the fragment back to markup: literal text as itself, a
    /// timed fragment as `<` timestamp `><c>` text `</c>`.
    pub fn render(&self) -> (r: String)
        ensures
            r@ == render_fragment(self@),
    {
        match self {
            VttCueFragment::Text(t) => t.clone(),
            VttCueFragment::TimedText { timestamp, text } => {
                proof {
                    reveal_strlit("<");
                    reveal_strlit("><c>");
                    reveal_strlit("</c>");
                }
                let mut r = String::from_str("<");
                let ts_text = timestamp.render();
                r.append(ts_text.as_str());
                r.append("><c>");
                r.append(text.as_str());
                r.append("</c>");
                proof {
                    assert(r@ =~= render_fragment(self@));
                }
                r
            },
        }
    }
}

/// An ordered sequence of fragments, as parsed from one cue payload.
#[derive(Clone, PartialEq, Eq, Debug)]
pub struct VttCuePayload(pub Vec<VttCueFragment>);

/// Concatenating two fragment sequences concatenates their renderings.
pub proof fn lemma_render_fragments_app(a: Seq<FragmentModel>, b: Seq<FragmentModel>)
    ensures
        render_fragments(a + b) == render_fragments(a) + render_fragments(b),
    decreases a.len(),
{
    if a.len() == 0 {
        assert(a + b =~= b);
        assert(render_fragments(a) + render_fragments(b) =~= render_fragments(b));
    } else {
        lemma_render_fragments_app(a.drop_first(), b);
        assert((a + b).drop_first() =~= a.drop_first() + b);
        assert((a + b)[0] == a[0]);
        assert(render_fragment(a[0]) + (render_fragments(a.drop_first()) + render_fragments(b))
            =~= (render_fragment(a[0]) + render_fragments(a.drop_first())) + render_fragments(b));
    }
}

impl VttCuePayload {
    /// Parses a payload string into its fragment sequence.
    pub fn parse(payload: &str) -> (r: VttCuePayload)
        ensures
            fragments_view(r.0@) == parse_fragments(payload@),
    {
        VttCuePayload(parse_cue_payload(payload))
    }

    /// Renders every fragment in order and concatenates the results.
    pub fn render(&self) -> (r: String)
        ensures
            r@ == render_fragments(fragments_view(self.0@)),
    {
        let ghost model = fragments_view(self.0@);
        let mut r = String::new();
        let mut idx: usize = 0;
        let n = self.0.len();
        while idx < n
            invariant
                0 <= idx <= n,
                n == self.0.len(),
                model == fragments_view(self.0@),
                r@ == render_fragments(model.take(idx as int)),
            decreases n - idx,
        {
            let fr = self.0[idx].render();
            r.append(fr.as_str());
            proof {
                lemma_render_fragments_app(model.take(idx as int), seq![model[idx as int]]);
                assert(model.take(idx as int) + seq![model[idx as int]] =~= model.take(
                    idx as int + 1,
                ));
                assert(seq![model[idx as int]].drop_first() =~= Seq::<FragmentModel>::empty());
                assert(render_fragments(seq![model[idx as int]]) == render_fragment(
                    model[idx as int],
                ) + render_fragments(Seq::<FragmentModel>::empty()));
                assert(render_fragment(model[idx as int]) + Seq::<char>::empty()
                    =~= render_fragment(model[idx as int]));
            }
            idx = idx + 1;
        }
        proof {
            assert(model.take(n as int) =~= model);
        }
        r
    }
}

/// A payload without `<` is a single literal fragment, or nothing when the
/// payload is all whitespace.
pub proof fn lemma_parse_plain(s: Seq<char>)
    requires
        no_lt(s),
    ensures
        parse_fragments(s) == if all_ws(s) {
            Seq::<FragmentModel>::empty()
        } else {
            seq![FragmentModel::Text(s)]
        },
{
    lemma_find_pat_props(s, seq!['<']);
    if find_pat(s, seq!['<']) is Some {
        let i = find_pat(s, seq!['<']).unwrap();
        lemma_occurs_single(s, '<', i);
    }
}

/// Whether a fragment's timestamp, if it has one, lies within the bounds
/// the textual form can carry.
pub open spec fn fragment_wf(f: FragmentModel) -> bool {
    match f {
        FragmentModel::Text(t) => true,
        FragmentModel::TimedText(ts, t) => ts.wf(),
    }
}

/// Every timed fragment the parser emits carries a well-formed timestamp.
pub proof fn lemma_parse_fragments_wf(s: Seq<char>)
    ensures
        forall|i: int|
            0 <= i < parse_fragments(s).len() ==> #[trigger] fragment_wf(parse_fragments(s)[i]),
    decreases s.len(), 1int,
{
    let ps = parse_fragments(s);
    match find_pat(s, seq!['<']) {
        None => {},
        Some(i0) => {
            if 0 <= i0 < s.len() {
                let pre = literal_fragments(s.subrange(0, i0));
                let tl = parse_tag(s.subrange(i0, s.len() as int));
                lemma_parse_tag_wf(s.subrange(i0, s.len() as int));
                assert forall|i: int| 0 <= i < ps.len() implies #[trigger] fragment_wf(
                    ps[i],
                ) by {
                    if i >= pre.len() {
                        assert(ps[i] == tl[i - pre.len()]);
                        assert(fragment_wf(tl[i - pre.len()]));
                    }
                }
            }
        },
    }
}

/// As `lemma_parse_fragments_wf`, for a suffix that starts at a `<`.
proof fn lemma_parse_tag_wf(rest: Seq<char>)
    ensures
        forall|i: int| 0 <= i < parse_tag(rest).len() ==> #[trigger] fragment_wf(parse_tag(rest)[i]),
    decreases rest.len(), 0int,
{
    let pt = parse_tag(rest);
    match find_pat(rest, seq!['>']) {
        None => {},
        Some(j) => {
            if 1 <= j < rest.len() {
                match timestamp_of_chars(rest.subrange(1, j)) {
                    None => {
                        let tl = parse_fragments(rest.subrange(1, rest.len() as int));
                        lemma_parse_fragments_wf(rest.subrange(1, rest.len() as int));
                        assert forall|i: int| 0 <= i < pt.len() implies #[trigger] fragment_wf(
                            pt[i],
                        ) by {
                            if i >= 1 {
                                assert(pt[i] == tl[i - 1]);
                                assert(fragment_wf(tl[i - 1]));
                            }
                        }
                    },
                    Some(ts) => {
                        crate::timestamp::lemma_parsed_timestamp_wf(rest.subrange(1, j));
                        let after = rest.subrange(j + 1, rest.len() as int);
                        if starts_with_c(after) {
                            match find_pat(after, close_marker()) {
                                Some(k) => {
                                    if 3 <= k && k + 4 <= after.len() {
                                        let tl = parse_fragments(
                                            after.subrange(k + 4, after.len() as int),
                                        );
                                        lemma_parse_fragments_wf(
                                            after.subrange(k + 4, after.len() as int),
                                        );
                                        assert forall|i: int|
                                            0 <= i < pt.len() implies #[trigger] fragment_wf(
                                            pt[i],
                                        ) by {
                                            if i >= 1 {
                                                assert(pt[i] == tl[i - 1]);
                                                assert(fragment_wf(tl[i - 1]));
                                            }
                                        }
                                    }
                                },
                                None => {},
                            }
                        } else {
                            let tl = parse_fragments(after);
                            lemma_parse_fragments_wf(after);
                            assert forall|i: int| 0 <= i < pt.len() implies #[trigger] fragment_wf(
                                pt[i],
                            ) by {
                                if i >= 1 {
                                    assert(pt[i] == tl[i - 1]);
                                    assert(fragment_wf(tl[i - 1]));
                                }
                            }
                        }
                    },
                }
            }
        },
    }
}

/// Whether `t` holds no `<` character.
pub open spec fn no_lt(t: Seq<char>) -> bool {
    forall|p: int| 0 <= p < t.len() ==> t[p] != '<'
}

/// The shape of fragments whose rendering re-parses exactly: a literal
/// fragment holds no `<` and is not all whitespace, and a timed fragment
/// has a well-formed timestamp and a text free of the closing marker
/// `</c>`.
pub open spec fn canonical_fragment(f: FragmentModel) -> bool {
    match f {
        FragmentModel::Text(t) => !all_ws(t) && no_lt(t),
        FragmentModel::TimedText(ts, t) => ts.wf() && (forall|p: int|
            !occurs_at(t, close_marker(), p)),
    }
}

/// A fragment sequence in canonical shape: every fragment canonical, and
/// no two literal fragments adjacent (their renderings would merge into
/// one literal span).
pub open spec fn canonical_fragments(fs: Seq<FragmentModel>) -> bool {
    (forall|i: int| 0 <= i < fs.len() ==> canonical_fragment(#[trigger] fs[i])) && (forall|i: int|
        0 <= i < fs.len() - 1 ==> ((#[trigger] fs[i]) is Text ==> fs[i + 1] is TimedText))
}

/// A suffix that starts at its only leading `<` parses as a tag.
proof fn lemma_parse_at_tag(r: Seq<char>)
    requires
        r.len() > 0,
        r[0] == '<',
    ensures
        parse_fragments(r) == parse_tag(r),
{
    lemma_occurs_single(r, '<', 0);
    lemma_find_pat_at(r, seq!['<'], 0);
    assert(r.subrange(0, 0) =~= Seq::<char>::empty());
    assert(all_ws(r.subrange(0, 0)));
    assert(r.subrange(0, r.len() as int) =~= r);
    assert(literal_fragments(r.subrange(0, 0)) + parse_tag(r) =~= parse_tag(r));
}

/// A literal span without `<`, followed by a suffix that starts with `<`,
/// parses as that literal fragment and then the suffix's tag.
#[verifier::rlimit(30)]
proof fn lemma_literal_then_tag(t: Seq<char>, rr: Seq<char>)
    requires
        !all_ws(t),
        no_lt(t),
        rr.len() > 0,
        rr[0] == '<',
    ensures
        parse_fragments(t + rr) == seq![FragmentModel::Text(t)] + parse_tag(rr),
{
    let s = t + rr;
    let tn = t.len() as int;
    assert forall|p: int| 0 <= p < tn implies !occurs_at(s, seq!['<'], p) by {
        lemma_occurs_single(s, '<', p);
        assert(s[p] == t[p]);
    }
    assert(s[tn] == rr[0]);
    lemma_occurs_single(s, '<', tn);
    lemma_find_pat_at(s, seq!['<'], tn);
    assert(s.subrange(0, tn) =~= t);
    assert(s.subrange(tn, s.len() as int) =~= rr);
    assert(parse_fragments(s) == literal_fragments(t) + parse_tag(rr));
    assert(literal_fragments(t) =~= seq![FragmentModel::Text(t)]);
}

/// The rendering of one timed fragment, followed by anything, parses as
/// that fragment and then the remainder.
#[verifier::rlimit(50)]
proof fn lemma_timed_then_rest(ts: VttTimestamp, txt: Seq<char>, rr: Seq<char>)
    requires
        ts.wf(),
        forall|p: int| !occurs_at(txt, close_marker(), p),
    ensures
        parse_fragments(
            render_fragment(FragmentModel::TimedText(ts, txt)) + rr,
        ) == seq![FragmentModel::TimedText(ts, txt)] + parse_fragments(rr),
{
    let ff = timestamp_chars(ts);
    crate::timestamp::lemma_timestamp_chars_shape(ts);
    crate::timestamp::lemma_timestamp_round_trip(ts);
    let head = render_fragment(FragmentModel::TimedText(ts, txt));
    let s = head + rr;
    assert(head =~= seq!['<'] + ff + seq!['>', '<', 'c', '>'] + txt + close_marker());
    let xn = txt.len() as int;
    assert(head.len() == 21 + xn);
    // the leading '<'
    assert(s[0] == '<');
    lemma_parse_at_tag(s);
    // the tag closes at position 13, right after the timestamp
    assert(s[13] == '>');
    assert forall|p: int| 0 <= p < 13 implies !occurs_at(s, seq!['>'], p) by {
        lemma_occurs_single(s, '>', p);
        if p == 0 {
            assert(s[0] == '<');
        } else {
            assert(s[p] == ff[p - 1]);
        }
    }
    lemma_occurs_single(s, '>', 13);
    lemma_find_pat_at(s, seq!['>'], 13);
    assert(s.subrange(1, 13) =~= ff);
    assert(timestamp_of_chars(s.subrange(1, 13)) == Some(ts));
    let after = s.subrange(14, s.len() as int);
    assert(after =~= seq!['<', 'c', '>'] + txt + close_marker() + rr);
    assert(starts_with_c(after));
    // the closing marker sits right after the text
    let k0 = 3 + xn;
    assert(after[k0] == '<' && after[k0 + 1] == '/' && after[k0 + 2] == 'c' && after[k0 + 3]
        == '>');
    lemma_occurs_four(after, '<', '/', 'c', '>', k0);
    assert forall|p: int| 0 <= p < k0 implies !occurs_at(after, close_marker(), p) by {
        lemma_occurs_four(after, '<', '/', 'c', '>', p);
        if occurs_at(after, close_marker(), p) {
            if p == 0 {
                assert(after[1] == 'c');
            } else if p == 1 {
                assert(after[1] == 'c');
            } else if p == 2 {
                assert(after[2] == '>');
            } else if p + 4 <= k0 {
                assert(after[p] == txt[p - 3] && after[p + 1] == txt[p - 2] && after[p + 2] == txt[p
                    - 1] && after[p + 3] == txt[p]);
                lemma_occurs_four(txt, '<', '/', 'c', '>', p - 3);
                assert(occurs_at(txt, close_marker(), p - 3));
            } else if p == k0 - 3 {
                assert(after[p + 3] == after[k0]);
            } else if p == k0 - 2 {
                assert(after[p + 2] == after[k0]);
            } else {
                assert(p == k0 - 1);
                assert(after[p + 1] == after[k0]);
            }
        }
    }
    lemma_find_pat_at(after, close_marker(), k0);
    assert(after.subrange(3, k0) =~= txt);
    assert(after.subrange(k0 + 4, after.len() as int) =~= rr);
    assert(parse_tag(s) == seq![FragmentModel::TimedText(ts, txt)] + parse_fragments(rr));
}

/// Rendering a canonical fragment sequence and parsing the result yields
/// the sequence back unchanged.  `lemma_parse_render_round_trip` derives
/// from this the round-trip law for the parser's own output.
#[verifier::rlimit(30)]
pub proof fn lemma_canonical_round_trip(fs: Seq<FragmentModel>)
    requires
        canonical_fragments(fs),
    ensures
        parse_fragments(render_fragments(fs)) == fs,
    decreases fs.len(),
{
    if fs.len() == 0 {
        let s = render_fragments(fs);
        assert(s =~= Seq::<char>::empty());
        lemma_find_pat_props(s, seq!['<']);
        if find_pat(s, seq!['<']) is Some {
            let i = find_pat(s, seq!['<']).unwrap();
            lemma_occurs_single(s, '<', i);
        }
        assert(all_ws(s));
        assert(parse_fragments(s) =~= fs);
    } else {
        let tail = fs.drop_first();
        assert(canonical_fragments(tail)) by {
            assert(forall|i: int|
                0 <= i < tail.len() ==> canonical_fragment(#[trigger] tail[i]) && tail[i] == fs[i
                    + 1]);
            assert forall|i: int|
                0 <= i < tail.len() - 1 && (#[trigger] tail[i]) is Text implies tail[i
                + 1] is TimedText by {
                assert(tail[i] == fs[i + 1]);
                assert(tail[i + 1] == fs[i + 2]);
            }
        }
        lemma_canonical_round_trip(tail);
        let rr = render_fragments(tail);
        let s = render_fragments(fs);
        assert(s == render_fragment(fs[0]) + rr);
        match fs[0] {
            FragmentModel::Text(t) => {
                assert(canonical_fragment(fs[0]));
                if tail.len() == 0 {
                    assert(rr =~= Seq::<char>::empty());
                    assert(s =~= t);
                    lemma_parse_plain(t);
                    assert(parse_fragments(s) =~= fs);
                } else {
                    assert(fs[1] is TimedText);
                    assert(tail[0] == fs[1]);
                    assert(rr == render_fragment(tail[0]) + render_fragments(tail.drop_first()));
                    assert(rr.len() > 0 && rr[0] == '<') by {
                        let h = render_fragment(tail[0]);
                        assert(h[0] == '<');
                        assert(rr[0] == h[0]);
                    }
                    lemma_literal_then_tag(t, rr);
                    lemma_parse_at_tag(rr);
                    assert(parse_fragments(s) =~= seq![fs[0]] + tail);
                    assert(seq![fs[0]] + tail =~= fs);
                }
            },
            FragmentModel::TimedText(ts, txt) => {
                assert(canonical_fragment(fs[0]));
                lemma_timed_then_rest(ts, txt, rr);
                assert(parse_fragments(s) =~= seq![fs[0]] + tail);
                assert(seq![fs[0]] + tail =~= fs);
            },
        }
    }
}

/// Whether a fragment, if it is a literal, carries no `<`.
pub open spec fn literal_free_of_lt(f: FragmentModel) -> bool {
    match f {
        FragmentModel::Text(t) => no_lt(t),
        FragmentModel::TimedText(ts, t) => true,
    }
}

/// Whether no literal fragment of `fs` carries a `<`.  The parser emits
/// such literals only on its recovery paths, when the payload held
/// malformed markup.
pub open spec fn recovery_free(fs: Seq<FragmentModel>) -> bool {
    forall|i: int| 0 <= i < fs.len() ==> literal_free_of_lt(#[trigger] fs[i])
}

/// A tag suffix parses to at least one fragment, and when the first is a
/// literal it carries a `<`.
proof fn lemma_parse_tag_head(rest: Seq<char>)
    requires
        rest.len() > 0,
        rest[0] == '<',
    ensures
        parse_tag(rest).len() > 0,
        parse_tag(rest)[0] is Text ==> !literal_free_of_lt(parse_tag(rest)[0]),
{
    lemma_find_pat_props(rest, seq!['>']);
    match find_pat(rest, seq!['>']) {
        None => {
            assert(parse_tag(rest)[0] == FragmentModel::Text(rest));
            assert(!no_lt(rest)) by {
                if no_lt(rest) {
                    assert(rest[0] != '<');
                }
            }
        },
        Some(j) => {
            lemma_occurs_single(rest, '>', j);
            assert(1 <= j < rest.len());
            match timestamp_of_chars(rest.subrange(1, j)) {
                None => {
                    assert(parse_tag(rest)[0] == FragmentModel::Text(seq!['<']));
                    assert(!no_lt(seq!['<'])) by {
                        if no_lt(seq!['<']) {
                            assert(seq!['<'][0] != '<');
                        }
                    }
                },
                Some(ts) => {
                    let after = rest.subrange(j + 1, rest.len() as int);
                    if starts_with_c(after) {
                        match find_pat(after, close_marker()) {
                            Some(k) => {
                                lemma_find_pat_props(after, close_marker());
                                lemma_occurs_four(after, '<', '/', 'c', '>', k);
                                assert(3 <= k && k + 4 <= after.len());
                            },
                            None => {
                                assert(parse_tag(rest)[0] == FragmentModel::Text(after));
                                assert(!no_lt(after)) by {
                                    if no_lt(after) {
                                        assert(after[0] != '<');
                                    }
                                }
                            },
                        }
                    }
                },
            }
        },
    }
}

/// A recovery-free parse of a payload is canonical.
pub proof fn lemma_parse_recovery_free_canonical(s: Seq<char>)
    ensures
        recovery_free(parse_fragments(s)) ==> canonical_fragments(parse_fragments(s)),
    decreases s.len(), 1int,
{
    let out = parse_fragments(s);
    lemma_find_pat_props(s, seq!['<']);
    match find_pat(s, seq!['<']) {
        None => {
            if recovery_free(out) && !all_ws(s) {
                assert(out[0] == FragmentModel::Text(s));
                assert(literal_free_of_lt(out[0]));
                assert(no_lt(s));
                assert(canonical_fragment(out[0]));
            }
        },
        Some(i0) => {
            lemma_occurs_single(s, '<', i0);
            let pre = s.subrange(0, i0);
            let tagrest = s.subrange(i0, s.len() as int);
            assert(tagrest.len() > 0 && tagrest[0] == '<');
            let lit = literal_fragments(pre);
            let tl = parse_tag(tagrest);
            lemma_parse_tag_recovery_free_canonical(tagrest);
            lemma_parse_tag_head(tagrest);
            if recovery_free(out) {
                assert(out == lit + tl);
                assert(recovery_free(tl)) by {
                    assert forall|i: int| 0 <= i < tl.len() implies literal_free_of_lt(
                        #[trigger] tl[i],
                    ) by {
                        assert(tl[i] == out[i + lit.len()]);
                        assert(literal_free_of_lt(out[i + lit.len()]));
                    }
                }
                assert(canonical_fragments(tl));
                assert(tl[0] is TimedText) by {
                    assert(tl[0] == out[lit.len() as int]);
                    assert(literal_free_of_lt(out[lit.len() as int]));
                }
                assert forall|i: int| 0 <= i < out.len() implies canonical_fragment(
                    #[trigger] out[i],
                ) by {
                    if i < lit.len() {
                        assert(!all_ws(pre));
                        assert(out[i] == FragmentModel::Text(pre));
                        assert forall|p: int| 0 <= p < pre.len() implies pre[p] != '<' by {
                            lemma_occurs_single(s, '<', p);
                            assert(pre[p] == s[p]);
                        }
                        assert(no_lt(pre));
                    } else {
                        assert(out[i] == tl[i - lit.len()]);
                        assert(canonical_fragment(tl[i - lit.len()]));
                    }
                }
                assert forall|i: int|
                    0 <= i < out.len() - 1 && (#[trigger] out[i]) is Text implies out[i
                    + 1] is TimedText by {
                    if i < lit.len() {
                        assert(out[i + 1] == tl[0]);
                    } else {
                        assert(out[i] == tl[i - lit.len()]);
                        assert(out[i + 1] == tl[i + 1 - lit.len()]);
                    }
                }
            }
        },
    }
}

/// As `lemma_parse_recovery_free_canonical`, for a suffix that starts at
/// a `<`.
proof fn lemma_parse_tag_recovery_free_canonical(rest: Seq<char>)
    requires
        rest.len() > 0,
        rest[0] == '<',
    ensures
        recovery_free(parse_tag(rest)) ==> canonical_fragments(parse_tag(rest)),
    decreases rest.len(), 0int,
{
    let out = parse_tag(rest);
    lemma_find_pat_props(rest, seq!['>']);
    match find_pat(rest, seq!['>']) {
        None => {
            if recovery_free(out) {
                assert(out[0] == FragmentModel::Text(rest));
                assert(literal_free_of_lt(out[0]));
                assert(no_lt(rest));
                assert(rest[0] != '<');
            }
        },
        Some(j) => {
            lemma_occurs_single(rest, '>', j);
            assert(1 <= j < rest.len());
            match timestamp_of_chars(rest.subrange(1, j)) {
                None => {
                    if recovery_free(out) {
                        assert(out[0] == FragmentModel::Text(seq!['<']));
                        assert(literal_free_of_lt(out[0]));
                        assert(no_lt(seq!['<']));
                        assert(seq!['<'][0] != '<');
                    }
                },
                Some(ts) => {
                    crate::timestamp::lemma_parsed_timestamp_wf(rest.subrange(1, j));
                    let after = rest.subrange(j + 1, rest.len() as int);
                    if starts_with_c(after) {
                        lemma_find_pat_props(after, close_marker());
                        match find_pat(after, close_marker()) {
                            Some(k) => {
                                lemma_occurs_four(after, '<', '/', 'c', '>', k);
                                assert(3 <= k && k + 4 <= after.len());
                                let txt = after.subrange(3, k);
                                let rest2 = after.subrange(k + 4, after.len() as int);
                                let tl = parse_fragments(rest2);
                                lemma_parse_recovery_free_canonical(rest2);
                                if recovery_free(out) {
                                    assert(out == seq![FragmentModel::TimedText(ts, txt)] + tl);
                                    assert(recovery_free(tl)) by {
                                        assert forall|i: int|
                                            0 <= i < tl.len() implies literal_free_of_lt(
                                            #[trigger] tl[i],
                                        ) by {
                                            assert(tl[i] == out[i + 1]);
                                            assert(literal_free_of_lt(out[i + 1]));
                                        }
                                    }
                                    assert(canonical_fragments(tl));
                                    assert forall|p: int| !occurs_at(txt, close_marker(), p) by {
                                        if occurs_at(txt, close_marker(), p) {
                                            assert(txt.subrange(p, p + 4) == close_marker());
                                            assert(after.subrange(3 + p, 3 + p + 4) =~= txt.subrange(
                                                p,
                                                p + 4,
                                            ));
                                            assert(occurs_at(after, close_marker(), 3 + p));
                                            assert(3 + p < k);
                                        }
                                    }
                                    assert(canonical_fragment(out[0]));
                                    assert forall|i: int|
                                        0 <= i < out.len() implies canonical_fragment(
                                        #[trigger] out[i],
                                    ) by {
                                        if i >= 1 {
                                            assert(out[i] == tl[i - 1]);
                                            assert(canonical_fragment(tl[i - 1]));
                                        }
                                    }
                                    assert forall|i: int|
                                        0 <= i < out.len() - 1 && (#[trigger] out[i]) is Text
                                        implies out[i + 1] is TimedText by {
                                        assert(i >= 1);
                                        assert(out[i] == tl[i - 1]);
                                        assert(out[i + 1] == tl[i]);
                                    }
                                }
                            },
                            None => {
                                if recovery_free(out) {
                                    assert(out[0] == FragmentModel::Text(after));
                                    assert(literal_free_of_lt(out[0]));
                                    assert(no_lt(after));
                                    assert(after[0] != '<');
                                }
                            },
                        }
                    } else {
                        let tl = parse_fragments(after);
                        lemma_parse_recovery_free_canonical(after);
                        if recovery_free(out) {
                            assert(out == seq![FragmentModel::TimedText(ts, Seq::empty())] + tl);
                            assert(recovery_free(tl)) by {
                                assert forall|i: int|
                                    0 <= i < tl.len() implies literal_free_of_lt(
                                    #[trigger] tl[i],
                                ) by {
                                    assert(tl[i] == out[i + 1]);
                                    assert(literal_free_of_lt(out[i + 1]));
                                }
                            }
                            assert(canonical_fragments(tl));
                            assert(canonical_fragment(out[0]));
                            assert forall|i: int| 0 <= i < out.len() implies canonical_fragment(
                                #[trigger] out[i],
                            ) by {
                                if i >= 1 {
                                    assert(out[i] == tl[i - 1]);
                                    assert(canonical_fragment(tl[i - 1]));
                                }
                            }
                            assert forall|i: int|
                                0 <= i < out.len() - 1 && (#[trigger] out[i]) is Text implies out[i
                                + 1] is TimedText by {
                                assert(i >= 1);
                                assert(out[i] == tl[i - 1]);
                                assert(out[i + 1] == tl[i]);
                            }
                        }
                    }
                },
            }
        },
    }
}

/// The round-trip law over the parser's own output: when no literal
/// fragment of `parse_fragments(s)` carries a `<` (none of the
/// malformed-markup recovery paths fired), rendering the fragments and
/// parsing the result yields the same fragment sequence back.
pub proof fn lemma_parse_render_round_trip(s: Seq<char>)
    requires
        recovery_free(parse_fragments(s)),
    ensures
        parse_fragments(render_fragments(parse_fragments(s))) == parse_fragments(s),
{
    lemma_parse_recovery_free_canonical(s);
    lemma_canonical_round_trip(parse_fragments(s));
}

/// Appending a fragment appends its model.
proof fn lemma_fragments_view_push(v: Seq<VttCueFragment>, f: VttCueFragment)
    ensures
        fragments_view(v.push(f)) =~= fragments_view(v).push(f@),
{
}

/// Parses a cue payload into its ordered fragments.
///
/// The function is total: any input yields a fragment sequence, with
/// malformed markup degrading into literal text as `parse_fragments`
/// describes.
pub fn parse_cue_payload(payload: &str) -> (r: Vec<VttCueFragment>)
    ensures
        fragments_view(r@) == parse_fragments(payload@),
{
    let mut fragments: Vec<VttCueFragment> = Vec::new();
    let mut rest: &str = payload;
    proof {
        assert(fragments_view(fragments@) =~= Seq::<FragmentModel>::empty());
        assert(fragments_view(fragments@) + parse_fragments(rest@) =~= parse_fragments(payload@));
    }
    loop
        invariant
            fragments_view(fragments@) + parse_fragments(rest@) =~= parse_fragments(payload@),
        decreases rest@.len(),
    {
        let n = rest.unicode_len();
        let found = find_char(rest, '<');
        match found {
            None => {
                proof {
                    assert(parse_fragments(rest@) == literal_fragments(rest@));
                }
                if !is_all_ws(rest) {
                    let ghost prev = fragments@;
                    fragments.push(VttCueFragment::Text(String::from_str(rest)));
                    proof {
                        lemma_fragments_view_push(prev, fragments@.last());
                        assert(fragments_view(fragments@) =~= fragments_view(prev)
                            + literal_fragments(rest@));
                        assert(fragments_view(fragments@) =~= parse_fragments(payload@));
                    }
                } else {
                    proof {
                        assert(fragments_view(fragments@) =~= parse_fragments(payload@));
                    }
                }
                return fragments;
            },
            Some(i) => {
                proof {
                    lemma_find_pat_props(rest@, seq!['<']);
                    lemma_occurs_single(rest@, '<', i as int);
                }
                let lit = rest.substring_char(0, i);
                let tagrest = rest.substring_char(i, n);
                proof {
                    assert(tagrest@[0] == '<');
                    assert(parse_fragments(rest@) == literal_fragments(lit@) + parse_tag(
                        tagrest@,
                    ));
                }
                if !is_all_ws(lit) {
                    let ghost prev = fragments@;
                    fragments.push(VttCueFragment::Text(String::from_str(lit)));
                    proof {
                        lemma_fragments_view_push(prev, fragments@.last());
                        assert(fragments_view(fragments@) =~= fragments_view(prev).push(
                            FragmentModel::Text(lit@),
                        ));
                        assert(fragments_view(fragments@) + parse_tag(tagrest@)
                            =~= parse_fragments(payload@));
                    }
                } else {
                    proof {
                        assert(literal_fragments(lit@) =~= Seq::<FragmentModel>::empty());
                        assert(fragments_view(fragments@) + parse_tag(tagrest@)
                            =~= parse_fragments(payload@));
                    }
                }
                let n2 = tagrest.unicode_len();
                let close = find_char(tagrest, '>');
                match close {
                    None => {
                        let ghost prev = fragments@;
                        fragments.push(VttCueFragment::Text(String::from_str(tagrest)));
                        proof {
                            assert(parse_tag(tagrest@) == seq![FragmentModel::Text(tagrest@)]);
                            lemma_fragments_view_push(prev, fragments@.last());
                            assert(fragments_view(fragments@) =~= parse_fragments(payload@));
                        }
                        return fragments;
                    },
                    Some(j) => {
                        proof {
                            lemma_find_pat_props(tagrest@, seq!['>']);
                            lemma_occurs_single(tagrest@, '>', j as int);
                            assert(j >= 1);
                        }
                        let content = tagrest.substring_char(1, j);
                        let parsed = VttTimestamp::parse(content);
                        match parsed {
                            None => {
                                let ghost prev = fragments@;
                                proof {
                                    reveal_strlit("<");
                                    assert("<"@ =~= seq!['<']);
                                }
                                fragments.push(VttCueFragment::Text(String::from_str("<")));
                                rest = tagrest.substring_char(1, n2);
                                proof {
                                    assert(parse_tag(tagrest@) == seq![
                                        FragmentModel::Text(seq!['<']),
                                    ] + parse_fragments(rest@));
                                    lemma_fragments_view_push(prev, fragments@.last());
                                    assert(fragments_view(fragments@) + parse_fragments(rest@)
                                        =~= parse_fragments(payload@));
                                }
                            },
                            Some(ts) => {
                                let after = tagrest.substring_char(j + 1, n2);
                                let n3 = after.unicode_len();
                                let has_c = n3 >= 3 && after.get_char(0) == '<' && after.get_char(1)
                                    == 'c' && after.get_char(2) == '>';
                                proof {
                                    assert(has_c == starts_with_c(after@));
                                }
                                if has_c {
                                    let closec = find_close_marker(after);
                                    match closec {
                                        None => {
                                            let ghost prev = fragments@;
                                            fragments.push(
                                                VttCueFragment::Text(String::from_str(after)),
                                            );
                                            proof {
                                                assert(parse_tag(tagrest@) == seq![
                                                    FragmentModel::Text(after@),
                                                ]);
                                                lemma_fragments_view_push(prev, fragments@.last());
                                                assert(fragments_view(fragments@)
                                                    =~= parse_fragments(payload@));
                                            }
                                            return fragments;
                                        },
                                        Some(k) => {
                                            proof {
                                                lemma_find_pat_props(after@, close_marker());
                                                lemma_occurs_four(
                                                    after@,
                                                    '<',
                                                    '/',
                                                    'c',
                                                    '>',
                                                    k as int,
                                                );
                                                assert(k >= 3);
                                            }
                                            let text = after.substring_char(3, k);
                                            let ghost prev = fragments@;
                                            fragments.push(
                                                VttCueFragment::TimedText {
                                                    timestamp: ts,
                                                    text: String::from_str(text),
                                                },
                                            );
                                            rest = after.substring_char(k + 4, n3);
                                            proof {
                                                assert(parse_tag(tagrest@) == seq![
                                                    FragmentModel::TimedText(ts, text@),
                                                ] + parse_fragments(rest@));
                                                lemma_fragments_view_push(prev, fragments@.last());
                                                assert(fragments_view(fragments@)
                                                    + parse_fragments(rest@) =~= parse_fragments(
                                                    payload@,
                                                ));
                                            }
                                        },
                                    }
                                } else {
                                    let ghost prev = fragments@;
                                    fragments.push(
                                        VttCueFragment::TimedText {
                                            timestamp: ts,
                                            text: String::new(),
                                        },
                                    );
                                    rest = after;
                                    proof {
                                        assert(parse_tag(tagrest@) == seq![
                                            FragmentModel::TimedText(ts, Seq::empty()),
                                        ] + parse_fragments(rest@));
                                        lemma_fragments_view_push(prev, fragments@.last());
                                        assert(fragments_view(fragments@) + parse_fragments(rest@)
                                            =~= parse_fragments(payload@));
                                    }
                                }
                            },
                        }
                    },
                }
            },
        }
    }
}

} // verus!
