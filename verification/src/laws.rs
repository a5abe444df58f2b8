//! Properties of the annotation transform, stated and proved once for every
//! input: how often the header is inserted, how the output's length relates
//! to the input's, that stripping the annotation lines recovers the input,
//! and which annotation each special line shape receives.

use crate::annotator::{
    alias_decl_pattern, contains_seq, declaration_part, enum_name, enum_part,
    excluded_enum_names, field_part, field_skip_fires, header_line, header_part, init_state,
    is_doc_comment_line, is_enum_line, is_pub_line, line_output, next_state, share_annotation,
    skip_annotation, span_decl_pattern, state_after, tag_annotation, transform_from, trimmed,
    TransformState,
};
use vstd::prelude::*;
use vstd::utf8::is_ascii_chars;

verus! {

// ---------------------------------------------------------------------------
// Counting the emitted annotations
// ---------------------------------------------------------------------------

/// How many header annotation lines a run over `lines` from `st` emits.
pub open spec fn headers_emitted(lines: Seq<Seq<u8>>, st: TransformState) -> int
    decreases lines.len(),
{
    if lines.len() == 0 {
        0
    } else {
        header_part(lines[0], st).len() + headers_emitted(
            lines.drop_first(),
            next_state(lines[0], st),
        )
    }
}

/// How many annotation lines of any kind a run over `lines` from `st` emits.
pub open spec fn annotations_emitted(lines: Seq<Seq<u8>>, st: TransformState) -> int
    decreases lines.len(),
{
    if lines.len() == 0 {
        0
    } else {
        (line_output(lines[0], st).len() - 1) + annotations_emitted(
            lines.drop_first(),
            next_state(lines[0], st),
        )
    }
}

/// Once the header flag is set it stays set, and no further header is
/// emitted.
proof fn lemma_headers_after_done(lines: Seq<Seq<u8>>, st: TransformState)
    requires
        st.header_done,
    ensures
        headers_emitted(lines, st) == 0,
    decreases lines.len(),
{
    if lines.len() > 0 {
        lemma_headers_after_done(lines.drop_first(), next_state(lines[0], st));
    }
}

/// From a state that has not yet emitted the header, a run emits it exactly
/// once when some line is not a module doc comment, and never otherwise.
pub proof fn lemma_header_emission(lines: Seq<Seq<u8>>, st: TransformState)
    requires
        !st.header_done,
    ensures
        headers_emitted(lines, st) == if exists|i: int|
            0 <= i < lines.len() && !is_doc_comment_line(lines[i]) {
            1int
        } else {
            0int
        },
    decreases lines.len(),
{
    if lines.len() == 0 {
    } else {
        let l0 = lines[0];
        let rest = lines.drop_first();
        if !is_doc_comment_line(l0) {
            assert(header_part(l0, st).len() == 1);
            assert(next_state(l0, st).header_done);
            lemma_headers_after_done(rest, next_state(l0, st));
            assert(0 <= 0 < lines.len() && !is_doc_comment_line(lines[0]));
        } else {
            assert(header_part(l0, st).len() == 0);
            assert(!next_state(l0, st).header_done);
            lemma_header_emission(rest, next_state(l0, st));
            if exists|i: int| 0 <= i < lines.len() && !is_doc_comment_line(lines[i]) {
                let i = choose|i: int| 0 <= i < lines.len() && !is_doc_comment_line(lines[i]);
                assert(i != 0);
                assert(rest[i - 1] == lines[i]);
                assert(0 <= i - 1 < rest.len() && !is_doc_comment_line(rest[i - 1]));
            }
            if exists|k: int| 0 <= k < rest.len() && !is_doc_comment_line(rest[k]) {
                let k = choose|k: int| 0 <= k < rest.len() && !is_doc_comment_line(rest[k]);
                assert(rest[k] == lines[k + 1]);
                assert(0 <= k + 1 < lines.len() && !is_doc_comment_line(lines[k + 1]));
            }
        }
    }
}

/// The header annotation is emitted exactly once in a whole run over any
/// input that holds at least one line that is not a module doc comment.
pub proof fn lemma_header_inserted_exactly_once(lines: Seq<Seq<u8>>)
    requires
        exists|i: int| 0 <= i < lines.len() && !is_doc_comment_line(lines[i]),
    ensures
        headers_emitted(lines, init_state()) == 1,
{
    lemma_header_emission(lines, init_state());
}

/// A whole run never emits the header twice, whatever the input.
pub proof fn lemma_header_at_most_once(lines: Seq<Seq<u8>>)
    ensures
        0 <= headers_emitted(lines, init_state()) <= 1,
{
    lemma_header_emission(lines, init_state());
}

/// The output's line count is the input's line count plus the number of
/// annotation lines emitted.
pub proof fn lemma_output_line_count(lines: Seq<Seq<u8>>, st: TransformState)
    ensures
        annotations_emitted(lines, st) >= 0,
        transform_from(lines, st).len() == lines.len() + annotations_emitted(lines, st),
    decreases lines.len(),
{
    if lines.len() > 0 {
        lemma_output_line_count(lines.drop_first(), next_state(lines[0], st));
        assert(line_output(lines[0], st).len() >= 1);
    }
}

// ---------------------------------------------------------------------------
// Stripping the annotations recovers the input
// ---------------------------------------------------------------------------

/// A line the transform may insert: the header line or one of the three
/// annotations.
pub open spec fn is_annotation_line(l: Seq<u8>) -> bool {
    l == header_line() || l == skip_annotation() || l == share_annotation() || l
        == tag_annotation()
}

/// The output with every annotation line removed.
pub open spec fn strip_annotations(out: Seq<Seq<u8>>) -> Seq<Seq<u8>>
    decreases out.len(),
{
    if out.len() == 0 {
        Seq::empty()
    } else if is_annotation_line(out[0]) {
        strip_annotations(out.drop_first())
    } else {
        seq![out[0]] + strip_annotations(out.drop_first())
    }
}

proof fn lemma_strip_distributes(a: Seq<Seq<u8>>, b: Seq<Seq<u8>>)
    ensures
        strip_annotations(a + b) == strip_annotations(a) + strip_annotations(b),
    decreases a.len(),
{
    if a.len() == 0 {
        assert(a + b =~= b);
        assert(strip_annotations(a) + strip_annotations(b) =~= strip_annotations(b));
    } else {
        assert((a + b)[0] == a[0]);
        assert((a + b).drop_first() =~= a.drop_first() + b);
        lemma_strip_distributes(a.drop_first(), b);
        if !is_annotation_line(a[0]) {
            assert(seq![a[0]] + (strip_annotations(a.drop_first()) + strip_annotations(b)) =~= (
            seq![a[0]] + strip_annotations(a.drop_first())) + strip_annotations(b));
        }
    }
}

proof fn lemma_strip_single(l: Seq<u8>)
    ensures
        is_annotation_line(l) ==> strip_annotations(seq![l]) == Seq::<Seq<u8>>::empty(),
        !is_annotation_line(l) ==> strip_annotations(seq![l]) == seq![l],
{
    assert(seq![l][0] == l);
    assert(seq![l].drop_first() =~= Seq::<Seq<u8>>::empty());
    assert(strip_annotations(Seq::<Seq<u8>>::empty()) == Seq::<Seq<u8>>::empty());
    if !is_annotation_line(l) {
        assert(seq![l] + Seq::<Seq<u8>>::empty() =~= seq![l]);
    }
}

/// Every line a `line_output` group emits before the input line is an
/// annotation line, so stripping the group leaves the input line alone.
proof fn lemma_strip_line_output(l: Seq<u8>, st: TransformState)
    requires
        !is_annotation_line(l),
    ensures
        strip_annotations(line_output(l, st)) == seq![l],
{
    lemma_strip_single(header_line());
    lemma_strip_single(skip_annotation());
    lemma_strip_single(share_annotation());
    lemma_strip_single(tag_annotation());
    lemma_strip_single(l);
    lemma_strip_distributes(header_part(l, st), declaration_part(l, st));
    lemma_strip_distributes(header_part(l, st) + declaration_part(l, st), enum_part(l));
    lemma_strip_distributes(
        header_part(l, st) + declaration_part(l, st) + enum_part(l),
        field_part(l),
    );
    lemma_strip_distributes(
        header_part(l, st) + declaration_part(l, st) + enum_part(l) + field_part(l),
        seq![l],
    );
    assert(strip_annotations(header_part(l, st)) =~= Seq::<Seq<u8>>::empty());
    assert(strip_annotations(declaration_part(l, st)) =~= Seq::<Seq<u8>>::empty());
    assert(strip_annotations(enum_part(l)) =~= Seq::<Seq<u8>>::empty());
    assert(strip_annotations(field_part(l)) =~= Seq::<Seq<u8>>::empty());
    assert(strip_annotations(line_output(l, st)) =~= seq![l]);
}

/// Removing every annotation line from the output reproduces the input,
/// line for line, whenever no input line is itself an annotation line.
pub proof fn lemma_strip_annotations_recovers_input(lines: Seq<Seq<u8>>, st: TransformState)
    requires
        forall|i: int| 0 <= i < lines.len() ==> !is_annotation_line(lines[i]),
    ensures
        strip_annotations(transform_from(lines, st)) == lines,
    decreases lines.len(),
{
    if lines.len() == 0 {
    } else {
        let l0 = lines[0];
        let rest = lines.drop_first();
        assert(forall|i: int| 0 <= i < rest.len() ==> rest[i] == lines[i + 1]);
        lemma_strip_annotations_recovers_input(rest, next_state(l0, st));
        lemma_strip_distributes(line_output(l0, st), transform_from(rest, next_state(l0, st)));
        lemma_strip_line_output(l0, st);
        assert(seq![l0] + rest =~= lines);
    }
}

// ---------------------------------------------------------------------------
// Which annotation each special line shape receives
// ---------------------------------------------------------------------------

/// A depth-zero public line containing the `Span` struct declaration gets
/// the skip annotation as its declaration annotation, never the sharing one.
pub proof fn lemma_span_line_gets_skip(l: Seq<u8>, st: TransformState)
    requires
        is_pub_line(l),
        st.depth == 0,
        contains_seq(l, span_decl_pattern()),
    ensures
        declaration_part(l, st) == seq![skip_annotation()],
{
}

/// A depth-zero public line whose trimmed content is exactly the
/// foreign-container alias declaration (and that does not hold the `Span`
/// declaration) gets no declaration annotation at all.
pub proof fn lemma_alias_line_not_shared(l: Seq<u8>, st: TransformState)
    requires
        is_pub_line(l),
        st.depth == 0,
        trimmed(l) == alias_decl_pattern(),
        !contains_seq(l, span_decl_pattern()),
    ensures
        declaration_part(l, st) == Seq::<Seq<u8>>::empty(),
{
}

/// Any other depth-zero public line gets the sharing annotation: one that
/// merely resembles the alias declaration without equalling it is shared.
pub proof fn lemma_pub_line_shared(l: Seq<u8>, st: TransformState)
    requires
        is_pub_line(l),
        st.depth == 0,
        !contains_seq(l, span_decl_pattern()),
        trimmed(l) != alias_decl_pattern(),
    ensures
        declaration_part(l, st) == seq![share_annotation()],
{
}

/// A public enum line whose name is one of the excluded enum names gets no
/// tagging annotation.
pub proof fn lemma_excluded_enum_not_tagged(l: Seq<u8>)
    requires
        excluded_enum_names().contains(enum_name(l)),
    ensures
        enum_part(l) == Seq::<Seq<u8>>::empty(),
{
}

/// A public enum line whose name is not excluded gets the tagging
/// annotation, whatever the brace depth: the check ignores block tracking.
pub proof fn lemma_enum_tagged(l: Seq<u8>)
    requires
        is_enum_line(l),
        !excluded_enum_names().contains(enum_name(l)),
    ensures
        enum_part(l) == seq![tag_annotation()],
{
}

/// While the tracked brace depth is nonzero, a `pub` line starts no new
/// declaration and gets no declaration annotation.
pub proof fn lemma_no_declaration_inside_block(l: Seq<u8>, st: TransformState)
    requires
        st.depth != 0,
    ensures
        declaration_part(l, st) == Seq::<Seq<u8>>::empty(),
{
}

/// A line holding an excluded field declaration is preceded by a skip
/// annotation in every state: brace depth and block tracking play no part.
pub proof fn lemma_field_skip_in_any_state(l: Seq<u8>, st: TransformState)
    requires
        field_skip_fires(l),
    ensures
        field_part(l) == seq![skip_annotation()],
        line_output(l, st).contains(skip_annotation()),
{
    let k = header_part(l, st).len() + declaration_part(l, st).len() + enum_part(l).len();
    assert(line_output(l, st)[k as int] == skip_annotation());
}

/// The tracked-block flag agrees with the brace depth: a block counts as
/// open exactly while unmatched braces remain.
pub open spec fn flag_matches_depth(st: TransformState) -> bool {
    st.in_block <==> st.depth != 0
}

/// One step preserves the agreement of flag and depth.
proof fn lemma_next_state_flag(l: Seq<u8>, st: TransformState)
    requires
        flag_matches_depth(st),
    ensures
        flag_matches_depth(next_state(l, st)),
{
}

/// Every state a run reaches from the initial state keeps the block flag in
/// step with the brace depth; in particular a closed block always stands at
/// depth zero, so the next depth-zero `pub` line can open a new one.
pub proof fn lemma_block_flag_tracks_depth(lines: Seq<Seq<u8>>, st: TransformState)
    requires
        flag_matches_depth(st),
    ensures
        flag_matches_depth(state_after(lines, st)),
    decreases lines.len(),
{
    if lines.len() > 0 {
        lemma_next_state_flag(lines[0], st);
        lemma_block_flag_tracks_depth(lines.drop_first(), next_state(lines[0], st));
    }
}

/// The initial state satisfies the flag-depth agreement, so the whole run
/// does.
pub proof fn lemma_block_flag_tracks_depth_from_start(lines: Seq<Seq<u8>>)
    ensures
        flag_matches_depth(state_after(lines, init_state())),
{
    lemma_block_flag_tracks_depth(lines, init_state());
}

/// The four lines the transform may insert are pairwise distinct: their
/// lengths already differ. The skip annotation in particular is never the
/// sharing annotation.
pub proof fn lemma_annotation_lines_distinct()
    ensures
        header_line().len() == 25,
        skip_annotation().len() == 14,
        share_annotation().len() == 12,
        tag_annotation().len() == 63,
        header_line() != skip_annotation(),
        header_line() != share_annotation(),
        header_line() != tag_annotation(),
        skip_annotation() != share_annotation(),
        skip_annotation() != tag_annotation(),
        share_annotation() != tag_annotation(),
{
    reveal_strlit("use typeshare::typeshare;");
    reveal_strlit("#[serde(skip)]");
    reveal_strlit("#[typeshare]");
    reveal_strlit("#[serde(tag = \"type_typeshare\", content = \"content_typeshare\")]");
    assert(is_ascii_chars("use typeshare::typeshare;"@));
    assert(is_ascii_chars("#[serde(skip)]"@));
    assert(is_ascii_chars("#[typeshare]"@));
    assert(is_ascii_chars("#[serde(tag = \"type_typeshare\", content = \"content_typeshare\")]"@));
    vstd::utf8::is_ascii_chars_encode_utf8("use typeshare::typeshare;"@);
    vstd::utf8::is_ascii_chars_encode_utf8("#[serde(skip)]"@);
    vstd::utf8::is_ascii_chars_encode_utf8("#[typeshare]"@);
    vstd::utf8::is_ascii_chars_encode_utf8(
        "#[serde(tag = \"type_typeshare\", content = \"content_typeshare\")]"@,
    );
}

} // verus!

