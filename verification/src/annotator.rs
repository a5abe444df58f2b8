//! The annotation-insertion transform: a single-pass, line-oriented rewrite
//! that classifies each input line against a small set of structural and
//! lexical patterns and emits zero or more annotation lines before it.
//!
//! Lines are treated as byte sequences; the patterns the transform matches
//! are all ASCII, and whitespace means ASCII whitespace throughout.

use vstd::prelude::*;
use vstd::string::StringSliceAdditionalSpecFns;

verus! {

// ---------------------------------------------------------------------------
// Fixed patterns and annotation lines
// ---------------------------------------------------------------------------

/// The header annotation line: imports the typeshare annotation symbol.
pub open spec fn header_line() -> Seq<u8> {
    "use typeshare::typeshare;".spec_bytes()
}

/// The skip annotation: the generator omits the next field or type entirely.
pub open spec fn skip_annotation() -> Seq<u8> {
    "#[serde(skip)]".spec_bytes()
}

/// The sharing annotation: marks the next item for cross-language sharing.
pub open spec fn share_annotation() -> Seq<u8> {
    "#[typeshare]".spec_bytes()
}

/// The tagging annotation: gives an enum's variants an explicit
/// discriminant-field pair.
pub open spec fn tag_annotation() -> Seq<u8> {
    "#[serde(tag = \"type_typeshare\", content = \"content_typeshare\")]".spec_bytes()
}

/// The module-level doc-comment marker: the header is never inserted before a
/// line whose trimmed content starts with it.
pub open spec fn doc_prefix() -> Seq<u8> {
    "//!".spec_bytes()
}

/// The keyword prefix that opens a public declaration.
pub open spec fn pub_prefix() -> Seq<u8> {
    "pub ".spec_bytes()
}

/// The prefix of a public enum declaration.
pub open spec fn pub_enum_prefix() -> Seq<u8> {
    "pub enum".spec_bytes()
}

/// The one struct declaration that is skipped rather than shared: its
/// tuple-like field is unsupported by the annotation scheme.
pub open spec fn span_decl_pattern() -> Seq<u8> {
    "pub struct Span {".spec_bytes()
}

/// The one type alias that must not receive the sharing annotation: it
/// aliases a foreign container type the generator cannot handle. A line is
/// exempt only when its trimmed content is exactly this declaration.
pub open spec fn alias_decl_pattern() -> Seq<u8> {
    "pub type FxHashMap<K, V> = HashMap<K, V>;".spec_bytes()
}

/// Enum names that already carry compatible tagging downstream and therefore
/// get no tagging annotation.
pub open spec fn excluded_enum_names() -> Seq<Seq<u8>> {
    seq![
        "ItemKind".spec_bytes(),
        "TraitBoundModifier".spec_bytes(),
        "MacroKind".spec_bytes(),
    ]
}

/// A field referring back to the skipped `Span` struct; always skipped.
pub open spec fn span_field_pattern() -> Seq<u8> {
    "pub span: Option<Span>,".spec_bytes()
}

/// A field holding a sequence of 2-tuples, unsupported by the annotation
/// scheme; always skipped.
pub open spec fn inputs_field_pattern() -> Seq<u8> {
    "pub inputs: Vec<(String, Type)>,".spec_bytes()
}

// ---------------------------------------------------------------------------
// Byte-level helpers: whitespace, scanning, prefixes, containment
// ---------------------------------------------------------------------------

/// ASCII whitespace: space, tab, line feed, vertical tab, form feed,
/// carriage return.
pub open spec fn is_space(b: u8) -> bool {
    b == 32 || b == 9 || b == 10 || b == 11 || b == 12 || b == 13
}

/// The first position at or after `i` holding a non-whitespace byte, or the
/// end of the sequence.
pub open spec fn skip_ws(l: Seq<u8>, i: int) -> int
    decreases l.len() - i
    when 0 <= i <= l.len()
{
    if i >= l.len() {
        l.len() as int
    } else if !is_space(l[i]) {
        i
    } else {
        skip_ws(l, i + 1)
    }
}

/// The first position at or after `i` holding a whitespace byte, or the end
/// of the sequence.
pub open spec fn skip_token(l: Seq<u8>, i: int) -> int
    decreases l.len() - i
    when 0 <= i <= l.len()
{
    if i >= l.len() {
        l.len() as int
    } else if is_space(l[i]) {
        i
    } else {
        skip_token(l, i + 1)
    }
}

/// The first position at or after `i` holding a line-feed byte, or the end
/// of the sequence.
pub open spec fn find_newline(l: Seq<u8>, i: int) -> int
    decreases l.len() - i
    when 0 <= i <= l.len()
{
    if i >= l.len() {
        l.len() as int
    } else if l[i] == 10 {
        i
    } else {
        find_newline(l, i + 1)
    }
}

/// The line with its leading whitespace removed.
pub open spec fn trimmed(l: Seq<u8>) -> Seq<u8> {
    l.skip(skip_ws(l, 0))
}

/// `pre` is a prefix of `l`.
pub open spec fn is_prefix_of(pre: Seq<u8>, l: Seq<u8>) -> bool {
    pre.len() <= l.len() && l.subrange(0, pre.len() as int) == pre
}

/// `pat` occurs in `l` at position `i`.
pub open spec fn contains_at(l: Seq<u8>, i: int, pat: Seq<u8>) -> bool {
    0 <= i && i + pat.len() <= l.len() && l.subrange(i, i + pat.len() as int) == pat
}

/// `pat` occurs somewhere in `l`.
pub open spec fn contains_seq(l: Seq<u8>, pat: Seq<u8>) -> bool {
    exists|i: int| contains_at(l, i, pat)
}

// ---------------------------------------------------------------------------
// Whitespace-separated tokens
// ---------------------------------------------------------------------------

/// The start position of the `n`-th (0-based) whitespace-separated token of
/// `l`, or the end of the line when `l` has no such token.
pub open spec fn token_start(l: Seq<u8>, n: nat) -> int
    decreases n,
{
    if n == 0 {
        skip_ws(l, 0)
    } else {
        skip_ws(l, skip_token(l, token_start(l, (n - 1) as nat)))
    }
}

/// The `n`-th (0-based) whitespace-separated token of `l`; empty when `l`
/// has fewer than `n + 1` tokens.
pub open spec fn nth_token(l: Seq<u8>, n: nat) -> Seq<u8> {
    l.subrange(token_start(l, n), skip_token(l, token_start(l, n)))
}

// ---------------------------------------------------------------------------
// Line classification
// ---------------------------------------------------------------------------

/// The line's trimmed content starts with the module-doc-comment marker.
pub open spec fn is_doc_comment_line(l: Seq<u8>) -> bool {
    is_prefix_of(doc_prefix(), trimmed(l))
}

/// The line's trimmed content starts with the `pub ` keyword prefix.
pub open spec fn is_pub_line(l: Seq<u8>) -> bool {
    is_prefix_of(pub_prefix(), trimmed(l))
}

/// The line's trimmed content starts a public enum declaration.
pub open spec fn is_enum_line(l: Seq<u8>) -> bool {
    is_prefix_of(pub_enum_prefix(), trimmed(l))
}

/// The enum name of a `pub enum` line: its third whitespace-separated token,
/// or empty when the line has fewer than three tokens.
pub open spec fn enum_name(l: Seq<u8>) -> Seq<u8> {
    nth_token(l, 2)
}

/// The tagging annotation fires on a public enum line whose name is not one
/// of the excluded enum names. This check is independent of brace depth.
pub open spec fn enum_tag_fires(l: Seq<u8>) -> bool {
    is_enum_line(l) && !excluded_enum_names().contains(enum_name(l))
}

/// The skip annotation fires on a line containing either excluded field
/// declaration, independent of brace depth or block tracking.
pub open spec fn field_skip_fires(l: Seq<u8>) -> bool {
    contains_seq(trimmed(l), span_field_pattern())
    || contains_seq(trimmed(l), inputs_field_pattern())
}

/// How many times the byte `b` occurs in `l`.
pub open spec fn count_byte(l: Seq<u8>, b: u8) -> int
    decreases l.len(),
{
    if l.len() == 0 {
        0
    } else {
        count_byte(l.drop_last(), b) + if l.last() == b { 1int } else { 0int }
    }
}

/// The net brace delta of a line: opening braces minus closing braces.
pub open spec fn brace_delta(l: Seq<u8>) -> int {
    count_byte(l, ('{' as u8)) - count_byte(l, ('}' as u8))
}

// ---------------------------------------------------------------------------
// Transform state and the per-line step
// ---------------------------------------------------------------------------

/// The state threaded across the single pass over the lines.
pub struct TransformState {
    /// The header annotation line has already been emitted.
    pub header_done: bool,
    /// The current position is inside the body of a tracked public
    /// declaration.
    pub in_block: bool,
    /// Signed count of unmatched opening braces since tracking began;
    /// meaningful only while a block is tracked.
    pub depth: int,
}

/// The state at the start of a run: nothing emitted, nothing tracked.
pub open spec fn init_state() -> TransformState {
    TransformState { header_done: false, in_block: false, depth: 0 }
}

/// A `pub ` line at depth zero starts a newly tracked declaration; a nested
/// `pub` line inside an already-tracked block does not.
pub open spec fn starts_declaration(l: Seq<u8>, st: TransformState) -> bool {
    is_pub_line(l) && st.depth == 0
}

/// The header annotation, emitted once, before the first line that is not a
/// module-level doc comment.
pub open spec fn header_part(l: Seq<u8>, st: TransformState) -> Seq<Seq<u8>> {
    if !st.header_done && !is_doc_comment_line(l) {
        seq![header_line()]
    } else {
        Seq::empty()
    }
}

/// Which annotation a public declaration line earns: the skip annotation
/// for the `Span` struct, nothing for the line whose trimmed content is
/// exactly the foreign-container alias declaration, and the sharing
/// annotation for every other public declaration.
pub open spec fn declaration_choice(l: Seq<u8>) -> Seq<Seq<u8>> {
    if contains_seq(l, span_decl_pattern()) {
        seq![skip_annotation()]
    } else if trimmed(l) != alias_decl_pattern() {
        seq![share_annotation()]
    } else {
        Seq::empty()
    }
}

/// The declaration annotation of a line, emitted only when the line starts
/// a public declaration at depth zero.
pub open spec fn declaration_part(l: Seq<u8>, st: TransformState) -> Seq<Seq<u8>> {
    if starts_declaration(l, st) {
        declaration_choice(l)
    } else {
        Seq::empty()
    }
}

/// The tagging annotation of a public enum line outside the exclusion set.
pub open spec fn enum_part(l: Seq<u8>) -> Seq<Seq<u8>> {
    if enum_tag_fires(l) {
        seq![tag_annotation()]
    } else {
        Seq::empty()
    }
}

/// The skip annotation of a line holding an excluded field declaration.
pub open spec fn field_part(l: Seq<u8>) -> Seq<Seq<u8>> {
    if field_skip_fires(l) {
        seq![skip_annotation()]
    } else {
        Seq::empty()
    }
}

/// Everything emitted for one input line: its annotations in their fixed
/// order, then the line itself, verbatim.
pub open spec fn line_output(l: Seq<u8>, st: TransformState) -> Seq<Seq<u8>> {
    header_part(l, st) + declaration_part(l, st) + enum_part(l) + field_part(l) + seq![l]
}

/// The state after processing one line: the header flag latches, and the
/// brace depth moves by the line's brace delta while a block is tracked,
/// closing the block when the depth returns to zero.
pub open spec fn next_state(l: Seq<u8>, st: TransformState) -> TransformState {
    let header_done = st.header_done || !is_doc_comment_line(l);
    if st.in_block || starts_declaration(l, st) {
        let d = st.depth + brace_delta(l);
        TransformState { header_done: header_done, in_block: d != 0, depth: d }
    } else {
        TransformState { header_done: header_done, in_block: false, depth: st.depth }
    }
}

// ---------------------------------------------------------------------------
// The whole run over a sequence of lines
// ---------------------------------------------------------------------------

/// The output lines of a run over `lines` starting in state `st`.
pub open spec fn transform_from(lines: Seq<Seq<u8>>, st: TransformState) -> Seq<Seq<u8>>
    decreases lines.len(),
{
    if lines.len() == 0 {
        Seq::empty()
    } else {
        line_output(lines[0], st) + transform_from(lines.drop_first(), next_state(lines[0], st))
    }
}

/// The state after a run over `lines` starting in state `st`.
pub open spec fn state_after(lines: Seq<Seq<u8>>, st: TransformState) -> TransformState
    decreases lines.len(),
{
    if lines.len() == 0 {
        st
    } else {
        state_after(lines.drop_first(), next_state(lines[0], st))
    }
}

/// The output lines of a whole run: every annotation the state machine
/// emits, interleaved before the lines that trigger them.
pub open spec fn transform_lines_spec(lines: Seq<Seq<u8>>) -> Seq<Seq<u8>> {
    transform_from(lines, init_state())
}

// ---------------------------------------------------------------------------
// Splitting text into lines and joining lines back into text
// ---------------------------------------------------------------------------

/// A line record with a trailing carriage return dropped: the terminator of
/// a carriage-return-line-feed ending is not part of the line.
pub open spec fn strip_cr(l: Seq<u8>) -> Seq<u8> {
    if l.len() > 0 && l.last() == 13 {
        l.drop_last()
    } else {
        l
    }
}

/// The lines of `c` from position `i` on: split at line feeds, one trailing
/// carriage return stripped from each terminated line, and no empty final
/// record after a terminating line feed.
pub open spec fn split_from(c: Seq<u8>, i: int) -> Seq<Seq<u8>>
    decreases c.len() - i
    when 0 <= i <= c.len()
    via split_from_decreases
{
    if i >= c.len() {
        Seq::empty()
    } else {
        let j = find_newline(c, i);
        if j >= c.len() {
            seq![c.subrange(i, c.len() as int)]
        } else {
            seq![strip_cr(c.subrange(i, j))] + split_from(c, j + 1)
        }
    }
}

#[via_fn]
proof fn split_from_decreases(c: Seq<u8>, i: int) {
    if 0 <= i < c.len() {
        lemma_find_newline(c, i);
    }
}

/// The line records of a whole text.
pub open spec fn split_lines_spec(c: Seq<u8>) -> Seq<Seq<u8>> {
    split_from(c, 0)
}

/// The text assembled from line records: each line followed by a line feed.
pub open spec fn join_lines_spec(lines: Seq<Seq<u8>>) -> Seq<u8>
    decreases lines.len(),
{
    if lines.len() == 0 {
        Seq::empty()
    } else {
        lines[0] + seq![10u8] + join_lines_spec(lines.drop_first())
    }
}

/// The whole transform over a text: split into lines, run the annotation
/// state machine, join the output lines with line feeds.
pub open spec fn annotate_spec(c: Seq<u8>) -> Seq<u8> {
    join_lines_spec(transform_lines_spec(split_lines_spec(c)))
}

// ---------------------------------------------------------------------------
// Characterization of the scanning helpers
// ---------------------------------------------------------------------------

/// `find_newline` lands on the first line-feed position at or after `i`.
pub proof fn lemma_find_newline(l: Seq<u8>, i: int)
    requires
        0 <= i <= l.len(),
    ensures
        i <= find_newline(l, i) <= l.len(),
        forall|j: int| i <= j < find_newline(l, i) ==> l[j] != 10,
        find_newline(l, i) < l.len() ==> l[find_newline(l, i)] == 10,
    decreases l.len() - i,
{
    if i < l.len() && l[i] != 10 {
        lemma_find_newline(l, i + 1);
    }
}

/// A position after only whitespace that holds a non-whitespace byte (or is
/// the end) is exactly where `skip_ws` lands.
pub proof fn lemma_skip_ws_is(l: Seq<u8>, i: int, k: int)
    requires
        0 <= i <= k <= l.len(),
        forall|j: int| i <= j < k ==> is_space(l[j]),
        k == l.len() || !is_space(l[k]),
    ensures
        skip_ws(l, i) == k,
    decreases k - i,
{
    if i < k {
        lemma_skip_ws_is(l, i + 1, k);
    }
}

/// A position after only non-whitespace that holds a whitespace byte (or is
/// the end) is exactly where `skip_token` lands.
pub proof fn lemma_skip_token_is(l: Seq<u8>, i: int, k: int)
    requires
        0 <= i <= k <= l.len(),
        forall|j: int| i <= j < k ==> !is_space(l[j]),
        k == l.len() || is_space(l[k]),
    ensures
        skip_token(l, i) == k,
    decreases k - i,
{
    if i < k {
        lemma_skip_token_is(l, i + 1, k);
    }
}

/// A position after no line feeds that holds a line feed (or is the end) is
/// exactly where `find_newline` lands.
pub proof fn lemma_find_newline_is(l: Seq<u8>, i: int, k: int)
    requires
        0 <= i <= k <= l.len(),
        forall|j: int| i <= j < k ==> l[j] != 10,
        k == l.len() || l[k] == 10,
    ensures
        find_newline(l, i) == k,
    decreases k - i,
{
    if i < k {
        lemma_find_newline_is(l, i + 1, k);
    }
}

// ---------------------------------------------------------------------------
// Executable annotation buffers
// ---------------------------------------------------------------------------

fn header_bytes() -> (r: Vec<u8>)
    ensures
        r@ == header_line(),
{
    vstd::slice::slice_to_vec("use typeshare::typeshare;".as_bytes())
}

fn skip_bytes() -> (r: Vec<u8>)
    ensures
        r@ == skip_annotation(),
{
    vstd::slice::slice_to_vec("#[serde(skip)]".as_bytes())
}

fn share_bytes() -> (r: Vec<u8>)
    ensures
        r@ == share_annotation(),
{
    vstd::slice::slice_to_vec("#[typeshare]".as_bytes())
}

fn tag_bytes() -> (r: Vec<u8>)
    ensures
        r@ == tag_annotation(),
{
    vstd::slice::slice_to_vec(
        "#[serde(tag = \"type_typeshare\", content = \"content_typeshare\")]".as_bytes(),
    )
}

// ---------------------------------------------------------------------------
// Executable scanning helpers
// ---------------------------------------------------------------------------

fn is_space_byte(b: u8) -> (r: bool)
    ensures
        r == is_space(b),
{
    b == 32 || b == 9 || b == 10 || b == 11 || b == 12 || b == 13
}

fn skip_ws_exec(l: &[u8], i: usize) -> (r: usize)
    requires
        i <= l@.len(),
    ensures
        i <= r <= l@.len(),
        r == skip_ws(l@, i as int),
{
    let mut k = i;
    while k < l.len() && is_space_byte(l[k])
        invariant
            i <= k <= l@.len(),
            forall|j: int| i <= j < k ==> is_space(l@[j]),
        decreases l@.len() - k,
    {
        k = k + 1;
    }
    proof {
        lemma_skip_ws_is(l@, i as int, k as int);
    }
    k
}

fn skip_token_exec(l: &[u8], i: usize) -> (r: usize)
    requires
        i <= l@.len(),
    ensures
        i <= r <= l@.len(),
        r == skip_token(l@, i as int),
{
    let mut k = i;
    while k < l.len() && !is_space_byte(l[k])
        invariant
            i <= k <= l@.len(),
            forall|j: int| i <= j < k ==> !is_space(l@[j]),
        decreases l@.len() - k,
    {
        k = k + 1;
    }
    proof {
        lemma_skip_token_is(l@, i as int, k as int);
    }
    k
}

fn find_newline_exec(l: &[u8], i: usize) -> (r: usize)
    requires
        i <= l@.len(),
    ensures
        i <= r <= l@.len(),
        r == find_newline(l@, i as int),
{
    let mut k = i;
    while k < l.len() && l[k] != 10
        invariant
            i <= k <= l@.len(),
            forall|j: int| i <= j < k ==> l@[j] != 10,
        decreases l@.len() - k,
    {
        k = k + 1;
    }
    proof {
        lemma_find_newline_is(l@, i as int, k as int);
    }
    k
}

/// Whether `pat` occurs in `l` exactly at position `i`.
fn has_prefix_at(l: &[u8], i: usize, pat: &[u8]) -> (r: bool)
    requires
        i <= l@.len(),
    ensures
        r == is_prefix_of(pat@, l@.skip(i as int)),
{
    if l.len() - i < pat.len() {
        return false;
    }
    let mut k: usize = 0;
    while k < pat.len()
        invariant
            0 <= k <= pat@.len(),
            i + pat@.len() <= l@.len(),
            l@.len() <= usize::MAX,
            forall|j: int| 0 <= j < k ==> l@[i + j] == pat@[j],
        decreases pat@.len() - k,
    {
        if l[i + k] != pat[k] {
            proof {
                assert(l@.skip(i as int)[k as int] != pat@[k as int]);
            }
            return false;
        }
        k = k + 1;
    }
    proof {
        assert(l@.skip(i as int).subrange(0, pat@.len() as int) =~= pat@);
    }
    true
}

/// Whether the two byte slices hold the same bytes.
fn bytes_eq(a: &[u8], b: &[u8]) -> (r: bool)
    ensures
        r == (a@ == b@),
{
    if a.len() != b.len() {
        return false;
    }
    let mut k: usize = 0;
    while k < a.len()
        invariant
            0 <= k <= a@.len(),
            a@.len() == b@.len(),
            forall|j: int| 0 <= j < k ==> a@[j] == b@[j],
        decreases a@.len() - k,
    {
        if a[k] != b[k] {
            return false;
        }
        k = k + 1;
    }
    proof {
        assert(a@ =~= b@);
    }
    true
}

/// Whether `pat` occurs anywhere in `l` at or after position `start`.
fn contains_from(l: &[u8], start: usize, pat: &[u8]) -> (r: bool)
    requires
        start <= l@.len(),
    ensures
        r == contains_seq(l@.skip(start as int), pat@),
{
    let ghost s = l@.skip(start as int);
    if pat.len() == 0 {
        proof {
            assert(s.subrange(0, 0) =~= pat@);
            assert(contains_at(s, 0, pat@));
        }
        return true;
    }
    if pat.len() > l.len() - start {
        proof {
            assert forall|i: int| !contains_at(s, i, pat@) by {}
        }
        return false;
    }
    let mut q: usize = start;
    while l.len() - q >= pat.len()
        invariant
            start <= q <= l@.len(),
            l@.len() <= usize::MAX,
            1 <= pat@.len() <= l@.len() - start,
            s == l@.skip(start as int),
            forall|j: int| 0 <= j < q - start ==> !contains_at(s, j, pat@),
        decreases l@.len() - q,
    {
        if has_prefix_at(l, q, pat) {
            proof {
                assert(l@.skip(q as int) =~= s.skip(q - start));
                assert(s.subrange(q - start, q - start + pat@.len() as int) =~= l@.skip(
                    q as int,
                ).subrange(0, pat@.len() as int));
                assert(contains_at(s, q - start, pat@));
            }
            return true;
        }
        proof {
            assert(l@.skip(q as int) =~= s.skip(q - start));
            if contains_at(s, q - start, pat@) {
                assert(s.subrange(q - start, q - start + pat@.len() as int) =~= l@.skip(
                    q as int,
                ).subrange(0, pat@.len() as int));
                assert(is_prefix_of(pat@, l@.skip(q as int)));
            }
        }
        q = q + 1;
    }
    proof {
        assert forall|i: int| !contains_at(s, i, pat@) by {
            if 0 <= i && i + pat@.len() <= s.len() {
                assert(i < q - start || i >= q - start);
            }
        }
    }
    false
}

/// The two brace counts of a line: opening braces and closing braces.
fn brace_counts(l: &[u8]) -> (r: (usize, usize))
    ensures
        r.0 == count_byte(l@, ('{' as u8)),
        r.1 == count_byte(l@, ('}' as u8)),
        r.0 <= l@.len(),
        r.1 <= l@.len(),
{
    let n = l.len();
    let mut opens: usize = 0;
    let mut closes: usize = 0;
    let mut k: usize = 0;
    while k < n
        invariant
            0 <= k <= l@.len(),
            n == l@.len(),
            opens == count_byte(l@.take(k as int), ('{' as u8)),
            closes == count_byte(l@.take(k as int), ('}' as u8)),
            opens <= k,
            closes <= k,
        decreases l@.len() - k,
    {
        proof {
            let t = l@.take(k as int + 1);
            assert(t.len() == k + 1);
            assert(t[k as int] == l@[k as int]);
            assert(t.drop_last() =~= l@.take(k as int));
            assert(t.last() == l@[k as int]);
        }
        if l[k] == '{' as u8 {
            opens = opens + 1;
        } else if l[k] == '}' as u8 {
            closes = closes + 1;
        }
        k = k + 1;
    }
    proof {
        assert(l@.take(l@.len() as int) =~= l@);
    }
    (opens, closes)
}

/// The third whitespace-separated token of the line, or an empty buffer when
/// the line has fewer than three tokens.
fn third_token(l: &[u8]) -> (t: Vec<u8>)
    ensures
        t@ == enum_name(l@),
{
    let s0 = skip_ws_exec(l, 0);
    let e0 = skip_token_exec(l, s0);
    let s1 = skip_ws_exec(l, e0);
    let e1 = skip_token_exec(l, s1);
    let s2 = skip_ws_exec(l, e1);
    let e2 = skip_token_exec(l, s2);
    proof {
        assert(token_start(l@, 0) == s0 as int);
        assert(token_start(l@, 1) == s1 as int);
        assert(token_start(l@, 2) == s2 as int);
    }
    vstd::slice::slice_to_vec(vstd::slice::slice_subrange(l, s2, e2))
}

/// Whether the token is one of the three excluded enum names.
fn is_excluded_enum_name(t: &[u8]) -> (r: bool)
    ensures
        r == excluded_enum_names().contains(t@),
{
    let r = bytes_eq(t, "ItemKind".as_bytes()) || bytes_eq(t, "TraitBoundModifier".as_bytes())
        || bytes_eq(t, "MacroKind".as_bytes());
    proof {
        if r {
            if t@ == excluded_enum_names()[0] {
                assert(excluded_enum_names().contains(t@));
            } else if t@ == excluded_enum_names()[1] {
                assert(excluded_enum_names().contains(t@));
            } else {
                assert(excluded_enum_names().contains(t@));
            }
        } else {
            assert forall|i: int| 0 <= i < excluded_enum_names().len() implies excluded_enum_names()[i]
                != t@ by {}
        }
    }
    r
}

// ---------------------------------------------------------------------------
// Views of line buffers, and bookkeeping lemmas for the main loop
// ---------------------------------------------------------------------------

/// The byte sequences held by a sequence of line buffers.
pub open spec fn line_views(s: Seq<Vec<u8>>) -> Seq<Seq<u8>> {
    Seq::new(s.len(), |i: int| s[i]@)
}

/// The total byte count of a sequence of lines.
pub open spec fn sum_len(lines: Seq<Seq<u8>>) -> int
    decreases lines.len(),
{
    if lines.len() == 0 {
        0
    } else {
        sum_len(lines.drop_last()) + lines.last().len()
    }
}

proof fn lemma_state_after_push(lines: Seq<Seq<u8>>, l: Seq<u8>, st: TransformState)
    ensures
        state_after(lines.push(l), st) == next_state(l, state_after(lines, st)),
    decreases lines.len(),
{
    if lines.len() == 0 {
        assert(lines.push(l).len() == 1);
        assert(lines.push(l)[0] == l);
        assert(lines.push(l).drop_first() =~= Seq::<Seq<u8>>::empty());
        assert(state_after(lines.push(l), st) == state_after(
            lines.push(l).drop_first(),
            next_state(l, st),
        ));
        assert(state_after(Seq::<Seq<u8>>::empty(), next_state(l, st)) == next_state(l, st));
        assert(state_after(lines, st) == st);
    } else {
        assert(lines.push(l)[0] == lines[0]);
        assert(lines.push(l).drop_first() =~= lines.drop_first().push(l));
        lemma_state_after_push(lines.drop_first(), l, next_state(lines[0], st));
    }
}

proof fn lemma_transform_from_push(lines: Seq<Seq<u8>>, l: Seq<u8>, st: TransformState)
    ensures
        transform_from(lines.push(l), st) == transform_from(lines, st) + line_output(
            l,
            state_after(lines, st),
        ),
    decreases lines.len(),
{
    assert(lines.push(l)[0] == if lines.len() == 0 { l } else { lines[0] });
    if lines.len() == 0 {
        assert(lines.push(l).drop_first() =~= Seq::<Seq<u8>>::empty());
        assert(transform_from(lines.push(l), st) == line_output(l, st) + transform_from(
            Seq::empty(),
            next_state(l, st),
        ));
        assert(transform_from(lines.push(l), st) =~= line_output(l, st));
        assert(transform_from(lines, st) + line_output(l, state_after(lines, st)) =~= line_output(
            l,
            st,
        ));
    } else {
        assert(lines.push(l).drop_first() =~= lines.drop_first().push(l));
        lemma_transform_from_push(lines.drop_first(), l, next_state(lines[0], st));
        assert(transform_from(lines.push(l), st) =~= transform_from(lines, st) + line_output(
            l,
            state_after(lines, st),
        ));
    }
}

/// A line's brace delta is bounded by its length.
proof fn lemma_count_byte_bounds(l: Seq<u8>, b: u8)
    ensures
        0 <= count_byte(l, b) <= l.len(),
    decreases l.len(),
{
    if l.len() > 0 {
        lemma_count_byte_bounds(l.drop_last(), b);
    }
}

proof fn lemma_sum_len_take(lines: Seq<Seq<u8>>, i: int)
    requires
        0 <= i < lines.len(),
    ensures
        sum_len(lines.take(i + 1)) == sum_len(lines.take(i)) + lines[i].len(),
        sum_len(lines.take(i)) >= 0,
    decreases i,
{
    assert(lines.take(i + 1).drop_last() =~= lines.take(i));
    assert(lines.take(i + 1).last() == lines[i]);
    if i > 0 {
        lemma_sum_len_take(lines, i - 1);
        assert(lines.take(i).drop_last() =~= lines.take(i - 1));
    }
}

/// Prefix sums of line lengths never exceed the total.
proof fn lemma_sum_len_prefix(lines: Seq<Seq<u8>>, i: int)
    requires
        0 <= i <= lines.len(),
    ensures
        0 <= sum_len(lines.take(i)) <= sum_len(lines),
    decreases lines.len() - i,
{
    if i == lines.len() {
        assert(lines.take(i) =~= lines);
        lemma_sum_len_nonneg(lines);
    } else {
        lemma_sum_len_take(lines, i);
        lemma_sum_len_prefix(lines, i + 1);
    }
}

proof fn lemma_sum_len_nonneg(lines: Seq<Seq<u8>>)
    ensures
        sum_len(lines) >= 0,
    decreases lines.len(),
{
    if lines.len() > 0 {
        lemma_sum_len_nonneg(lines.drop_last());
    }
}

/// Computes the declaration annotation of a public line, `ws` being where
/// its leading whitespace ends.
fn declaration_choice_bytes(s: &[u8], ws: usize) -> (r: Option<Vec<u8>>)
    requires
        ws <= s@.len(),
        ws == skip_ws(s@, 0),
    ensures
        (match r {
            Some(v) => declaration_choice(s@) == seq![v@],
            None => declaration_choice(s@) == Seq::<Seq<u8>>::empty(),
        }),
{
    proof {
        assert(s@.skip(0) =~= s@);
    }
    if contains_from(s, 0, "pub struct Span {".as_bytes()) {
        Some(skip_bytes())
    } else {
        let trimmed_line = vstd::slice::slice_subrange(s, ws, s.len());
        proof {
            assert(trimmed_line@ =~= trimmed(s@));
        }
        if !bytes_eq(trimmed_line, "pub type FxHashMap<K, V> = HashMap<K, V>;".as_bytes()) {
            Some(share_bytes())
        } else {
            None
        }
    }
}

// ---------------------------------------------------------------------------
// The transform over a sequence of lines
// ---------------------------------------------------------------------------

/// Runs the annotation state machine over the given lines and returns the
/// output lines: each input line verbatim, preceded by the annotation lines
/// it triggers. The byte bound on the input keeps the brace counter within
/// machine range.
#[verifier::rlimit(50)]
pub fn transform_lines(lines: &Vec<Vec<u8>>) -> (out: Vec<Vec<u8>>)
    requires
        sum_len(line_views(lines@)) <= usize::MAX,
    ensures
        line_views(out@) == transform_lines_spec(line_views(lines@)),
{
    let ghost gl = line_views(lines@);
    let mut out: Vec<Vec<u8>> = Vec::new();
    let mut header_done = false;
    let mut in_block = false;
    let mut depth: i128 = 0;
    let mut i: usize = 0;
    proof {
        assert(gl.take(0) =~= Seq::<Seq<u8>>::empty());
        assert(line_views(out@) =~= Seq::<Seq<u8>>::empty());
    }
    while i < lines.len()
        invariant
            0 <= i <= lines@.len(),
            gl == line_views(lines@),
            gl.len() == lines@.len(),
            sum_len(gl) <= usize::MAX,
            line_views(out@) == transform_from(gl.take(i as int), init_state()),
            header_done == state_after(gl.take(i as int), init_state()).header_done,
            in_block == state_after(gl.take(i as int), init_state()).in_block,
            depth == state_after(gl.take(i as int), init_state()).depth,
            -sum_len(gl.take(i as int)) <= depth <= sum_len(gl.take(i as int)),
        decreases lines@.len() - i,
    {
        let ghost st = state_after(gl.take(i as int), init_state());
        let ghost base = transform_from(gl.take(i as int), init_state());
        let line: &Vec<u8> = &lines[i];
        let ghost lv = line@;
        proof {
            assert(gl[i as int] == lv);
            lemma_sum_len_prefix(gl, i as int);
            lemma_sum_len_take(gl, i as int);
        }
        let s = line.as_slice();
        let ws = skip_ws_exec(s, 0);

        // Header insertion: once, before the first non-doc-comment line.
        let is_doc = has_prefix_at(s, ws, "//!".as_bytes());
        proof {
            assert(is_doc == is_doc_comment_line(lv));
        }
        let ghost o1 = out@;
        if !header_done && !is_doc {
            out.push(header_bytes());
            proof {
                assert(line_views(out@) =~= line_views(o1).push(header_line()));
            }
            header_done = true;
        }
        proof {
            assert(line_views(out@) =~= base + header_part(lv, st));
        }

        // Declaration-start detection at depth zero.
        let is_pub = has_prefix_at(s, ws, "pub ".as_bytes());
        proof {
            assert(is_pub == is_pub_line(lv));
            assert(lv.skip(0) =~= lv);
        }
        let ghost o2 = out@;
        if is_pub && depth == 0 {
            if let Some(annotation) = declaration_choice_bytes(s, ws) {
                let ghost av = annotation@;
                out.push(annotation);
                proof {
                    assert(line_views(out@) =~= line_views(o2).push(av));
                }
            }
        }
        proof {
            assert(line_views(out@) =~= base + header_part(lv, st) + declaration_part(lv, st));
        }

        // Enum tagging, independent of brace depth.
        let is_enum = has_prefix_at(s, ws, "pub enum".as_bytes());
        proof {
            assert(is_enum == is_enum_line(lv));
        }
        let ghost o3 = out@;
        if is_enum {
            let name = third_token(s);
            if !is_excluded_enum_name(name.as_slice()) {
                out.push(tag_bytes());
                proof {
                    assert(line_views(out@) =~= line_views(o3).push(tag_annotation()));
                }
            }
        }
        proof {
            assert(line_views(out@) =~= base + header_part(lv, st) + declaration_part(lv, st)
                + enum_part(lv));
        }

        // Field skipping, independent of brace depth.
        let has_span_field = contains_from(s, ws, "pub span: Option<Span>,".as_bytes());
        let has_inputs_field = contains_from(s, ws, "pub inputs: Vec<(String, Type)>,".as_bytes());
        let ghost o4 = out@;
        if has_span_field || has_inputs_field {
            out.push(skip_bytes());
            proof {
                assert(line_views(out@) =~= line_views(o4).push(skip_annotation()));
            }
        }
        proof {
            assert(line_views(out@) =~= base + header_part(lv, st) + declaration_part(lv, st)
                + enum_part(lv) + field_part(lv));
        }

        // Block-end tracking: move the brace depth while a block is tracked.
        let tracking = in_block || (is_pub && depth == 0);
        if tracking {
            let counts = brace_counts(s);
            proof {
                lemma_count_byte_bounds(lv, ('{' as u8));
                lemma_count_byte_bounds(lv, ('}' as u8));
            }
            depth = depth + counts.0 as i128 - counts.1 as i128;
            in_block = depth != 0;
        } else {
            in_block = false;
        }

        // The line itself, verbatim, after its annotations.
        let ghost o5 = out@;
        out.push(vstd::slice::slice_to_vec(s));
        i = i + 1;
        proof {
            assert(line_views(out@) =~= line_views(o5).push(lv));
            assert(line_views(out@) =~= base + line_output(lv, st));
            assert(gl.take(i as int) =~= gl.take(i - 1).push(lv));
            lemma_transform_from_push(gl.take(i - 1), lv, init_state());
            lemma_state_after_push(gl.take(i - 1), lv, init_state());
            assert(line_views(out@) == transform_from(gl.take(i as int), init_state()));
        }
    }
    proof {
        assert(gl.take(i as int) =~= gl);
    }
    out
}

// ---------------------------------------------------------------------------
// Splitting and joining, executably
// ---------------------------------------------------------------------------

/// Splits a text into its line records, as `split_lines_spec` describes.
pub fn split_lines(content: &[u8]) -> (lines: Vec<Vec<u8>>)
    ensures
        line_views(lines@) == split_lines_spec(content@),
{
    let n = content.len();
    let mut lines: Vec<Vec<u8>> = Vec::new();
    let mut pos: usize = 0;
    proof {
        assert(line_views(lines@) =~= Seq::<Seq<u8>>::empty());
        assert(line_views(lines@) + split_from(content@, 0) =~= split_from(content@, 0));
    }
    while pos < n
        invariant
            0 <= pos <= n,
            n == content@.len(),
            split_from(content@, 0) == line_views(lines@) + split_from(content@, pos as int),
        decreases n - pos,
    {
        let ghost pos0 = pos as int;
        let ghost lb = lines@;
        let j = find_newline_exec(content, pos);
        proof {
            lemma_find_newline(content@, pos0);
        }
        if j >= n {
            let line = vstd::slice::slice_to_vec(vstd::slice::slice_subrange(content, pos, n));
            lines.push(line);
            pos = n;
            proof {
                assert(line_views(lines@) =~= line_views(lb).push(
                    content@.subrange(pos0, n as int),
                ));
                assert(split_from(content@, pos0) == seq![content@.subrange(pos0, n as int)]);
                assert(split_from(content@, 0) == line_views(lines@) + split_from(
                    content@,
                    pos as int,
                )) by {
                    assert(line_views(lb) + split_from(content@, pos0) =~= line_views(lines@)
                        + split_from(content@, pos as int));
                }
            }
        } else {
            let end = if j > pos && content[j - 1] == 13 {
                j - 1
            } else {
                j
            };
            proof {
                assert(content@.subrange(pos0, j as int).len() == j - pos0);
                if j > pos && content@[j - 1] == 13 {
                    assert(content@.subrange(pos0, j as int).last() == content@[j - 1]);
                    assert(content@.subrange(pos0, j as int).drop_last() =~= content@.subrange(
                        pos0,
                        j - 1,
                    ));
                }
                assert(strip_cr(content@.subrange(pos0, j as int)) == content@.subrange(
                    pos0,
                    end as int,
                ));
            }
            let line = vstd::slice::slice_to_vec(vstd::slice::slice_subrange(content, pos, end));
            lines.push(line);
            pos = j + 1;
            proof {
                assert(line_views(lines@) =~= line_views(lb).push(
                    content@.subrange(pos0, end as int),
                ));
                assert(split_from(content@, pos0) == seq![
                    strip_cr(content@.subrange(pos0, j as int)),
                ] + split_from(content@, j + 1));
                assert(line_views(lb) + split_from(content@, pos0) =~= line_views(lines@)
                    + split_from(content@, pos as int));
            }
        }
    }
    proof {
        assert(split_from(content@, pos as int) =~= Seq::<Seq<u8>>::empty());
        assert(line_views(lines@) + Seq::<Seq<u8>>::empty() =~= line_views(lines@));
    }
    lines
}

/// Joins line records back into a text, each line followed by a line feed,
/// as `join_lines_spec` describes.
pub fn join_lines(lines: &Vec<Vec<u8>>) -> (out: Vec<u8>)
    ensures
        out@ == join_lines_spec(line_views(lines@)),
{
    let ghost gl = line_views(lines@);
    let mut out: Vec<u8> = Vec::new();
    let mut i: usize = 0;
    proof {
        assert(gl.skip(0) =~= gl);
        assert(out@ + join_lines_spec(gl) =~= join_lines_spec(gl));
    }
    while i < lines.len()
        invariant
            0 <= i <= lines@.len(),
            gl == line_views(lines@),
            gl.len() == lines@.len(),
            join_lines_spec(gl) == out@ + join_lines_spec(gl.skip(i as int)),
        decreases lines@.len() - i,
    {
        let ghost o0 = out@;
        let ghost rest = gl.skip(i as int);
        let line: &Vec<u8> = &lines[i];
        let ghost lv = line@;
        proof {
            assert(gl[i as int] == lv);
            assert(rest[0] == lv);
            assert(rest.drop_first() =~= gl.skip(i + 1));
        }
        let m = line.len();
        let mut k: usize = 0;
        while k < m
            invariant
                0 <= k <= lv.len(),
                m == lv.len(),
                lv == line@,
                out@ == o0 + lv.take(k as int),
            decreases lv.len() - k,
        {
            out.push(line[k]);
            proof {
                assert(lv.take(k as int).push(lv[k as int]) =~= lv.take(k + 1));
                assert((o0 + lv.take(k as int)).push(lv[k as int]) =~= o0 + lv.take(k + 1));
            }
            k = k + 1;
        }
        out.push(10u8);
        i = i + 1;
        proof {
            assert(lv.take(lv.len() as int) =~= lv);
            assert(out@ =~= o0 + lv + seq![10u8]);
            assert(o0 + (lv + seq![10u8] + join_lines_spec(gl.skip(i as int))) =~= out@
                + join_lines_spec(gl.skip(i as int)));
        }
    }
    proof {
        assert(gl.skip(i as int) =~= Seq::<Seq<u8>>::empty());
        assert(out@ + Seq::<u8>::empty() =~= out@);
    }
    out
}

/// The total byte count of the split lines never exceeds the text's length.
proof fn lemma_split_sum_len(c: Seq<u8>, i: int)
    requires
        0 <= i <= c.len(),
    ensures
        0 <= sum_len(split_from(c, i)) <= c.len() - i,
    decreases c.len() - i,
{
    if i < c.len() {
        lemma_find_newline(c, i);
        let j = find_newline(c, i);
        if j >= c.len() {
            let x = c.subrange(i, c.len() as int);
            assert(seq![x].len() == 1);
            assert(seq![x].last() == x);
            assert(seq![x].drop_last() =~= Seq::<Seq<u8>>::empty());
            assert(sum_len(Seq::<Seq<u8>>::empty()) == 0);
            assert(sum_len(split_from(c, i)) == x.len());
        } else {
            lemma_split_sum_len(c, j + 1);
            let x = strip_cr(c.subrange(i, j));
            lemma_sum_len_prepend(x, split_from(c, j + 1));
            assert(x.len() <= j - i);
        }
    }
}

proof fn lemma_sum_len_prepend(x: Seq<u8>, r: Seq<Seq<u8>>)
    ensures
        sum_len(seq![x] + r) == x.len() + sum_len(r),
    decreases r.len(),
{
    if r.len() == 0 {
        assert(seq![x] + r =~= seq![x]);
        assert(seq![x].len() == 1);
        assert(seq![x].last() == x);
        assert(seq![x].drop_last() =~= Seq::<Seq<u8>>::empty());
        assert(sum_len(Seq::<Seq<u8>>::empty()) == 0);
    } else {
        lemma_sum_len_prepend(x, r.drop_last());
        assert((seq![x] + r).drop_last() =~= seq![x] + r.drop_last());
        assert((seq![x] + r).last() == r.last());
    }
}

// ---------------------------------------------------------------------------
// The whole transform over a text
// ---------------------------------------------------------------------------

/// Rewrites a whole source text: splits it into lines, inserts the header
/// line and the skip, sharing and tagging annotations the state machine
/// calls for, and joins the result, one line feed after each output line.
pub fn add_typeshare_annotations(content: &[u8]) -> (out: Vec<u8>)
    ensures
        out@ == annotate_spec(content@),
{
    let total = content.len();
    let lines = split_lines(content);
    proof {
        lemma_split_sum_len(content@, 0);
        assert(sum_len(line_views(lines@)) <= total);
    }
    let transformed = transform_lines(&lines);
    join_lines(&transformed)
}

} // verus!
