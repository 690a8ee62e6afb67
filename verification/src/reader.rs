//! Decoder for one line of a Hershey font file.
//!
//! A record is ASCII text: an identifier field, a vertex-count field, two
//! bearing characters and then coordinate characters, two per stroke entry.
//! Every numeric value in the coordinate region is one character, read as its
//! code point's offset from `'R'`.

use vstd::prelude::*;

verus! {

/// One decoded font character.
#[derive(Debug, Clone, PartialEq, Eq)]
pub struct HersheyChar {
    /// Identifier carried over from the record. Many real font files reuse
    /// one value for every glyph, so this is not a reliable key; a glyph is
    /// addressed by its line position within its font file.
    pub id: usize,
    /// The record's declared vertex count less one, the one being the bearing
    /// pair that the format folds into its total. A hint only: it is not
    /// validated against the number of decoded stroke entries.
    pub vertex_num: usize,
    /// Left side bearing.
    pub left_hand: i8,
    /// Right side bearing.
    pub right_hand: i8,
    /// Stroke entries in record order: `Some((x, y))` is a drawable point,
    /// `None` lifts the pen without drawing.
    pub vertex_data: Vec<Option<(i8, i8)>>,
}

/// Why a record failed to decode.
#[derive(Debug, Clone, PartialEq, Eq)]
pub enum HersheyError {
    /// The record is shorter than the minimum viable length, or too short to
    /// hold its two bearing characters.
    TooShort,
    /// No whitespace delimits the identifier field.
    InvalidSpacing,
    /// No transition into the bearing and coordinate region was found.
    InvalidAfterwards,
    /// The identifier or count field is not a valid base-10 integer.
    NumericParse,
    /// The coordinate region has an odd number of characters.
    MalformedVertices,
}

/// Mathematical model of a decoded glyph.
pub ghost struct GlyphModel {
    pub id: int,
    pub vertex_num: int,
    pub left_hand: int,
    pub right_hand: int,
    pub vertex_data: Seq<Option<(int, int)>>,
}

/// The mathematical value of one stored stroke entry.
pub open spec fn entry_model(e: Option<(i8, i8)>) -> Option<(int, int)> {
    match e {
        Some(p) => Some((p.0 as int, p.1 as int)),
        None => None,
    }
}

/// The mathematical value of a stored stroke list.
pub open spec fn entries_model(s: Seq<Option<(i8, i8)>>) -> Seq<Option<(int, int)>> {
    Seq::new(s.len(), |k: int| entry_model(s[k]))
}

impl View for HersheyChar {
    type V = GlyphModel;

    open spec fn view(&self) -> GlyphModel {
        GlyphModel {
            id: self.id as int,
            vertex_num: self.vertex_num as int,
            left_hand: self.left_hand as int,
            right_hand: self.right_hand as int,
            vertex_data: entries_model(self.vertex_data@),
        }
    }
}

/// A character's code-point offset from `'R'`, narrowed to the signed byte
/// range the way an 8-bit two's-complement conversion narrows it. For every
/// ASCII character this is exactly `c - 'R'`.
pub open spec fn char_offset(c: char) -> int {
    let v = (c as int) % 256 - 82;
    if v >= 128 {
        v - 256
    } else {
        v
    }
}

/// ASCII whitespace.
pub open spec fn is_space(c: char) -> bool {
    c == ' ' || c == '\t' || c == '\n' || c == '\r' || c == '\u{c}'
}

/// ASCII decimal digit.
pub open spec fn is_digit(c: char) -> bool {
    48 <= c as int && c as int <= 57
}

/// A character that ends the numeric fields: neither whitespace nor a digit.
pub open spec fn is_field_end(c: char) -> bool {
    !is_space(c) && !is_digit(c)
}

/// The least index at or after `i` holding a non-whitespace character.
pub open spec fn find_nonspace(s: Seq<char>, i: int) -> Option<int>
    decreases s.len() - i,
    when 0 <= i <= s.len()
{
    if i >= s.len() {
        None
    } else if !is_space(s[i]) {
        Some(i)
    } else {
        find_nonspace(s, i + 1)
    }
}

/// The least index at or after `i` holding a whitespace character.
pub open spec fn find_space(s: Seq<char>, i: int) -> Option<int>
    decreases s.len() - i,
    when 0 <= i <= s.len()
{
    if i >= s.len() {
        None
    } else if is_space(s[i]) {
        Some(i)
    } else {
        find_space(s, i + 1)
    }
}

/// The least index at or after `i` holding a field-ending character.
pub open spec fn find_field_end(s: Seq<char>, i: int) -> Option<int>
    decreases s.len() - i,
    when 0 <= i <= s.len()
{
    if i >= s.len() {
        None
    } else if is_field_end(s[i]) {
        Some(i)
    } else {
        find_field_end(s, i + 1)
    }
}

/// Length of `s` once trailing whitespace is removed.
pub open spec fn trimmed_len(s: Seq<char>) -> int
    decreases s.len(),
{
    if s.len() == 0 {
        0
    } else if is_space(s[s.len() - 1]) {
        trimmed_len(s.drop_last())
    } else {
        s.len() as int
    }
}

/// `s` with its trailing whitespace removed.
pub open spec fn trim_end(s: Seq<char>) -> Seq<char> {
    s.subrange(0, trimmed_len(s))
}

/// `s` with leading and trailing whitespace removed.
pub open spec fn trim(s: Seq<char>) -> Seq<char> {
    let t = trim_end(s);
    match find_nonspace(t, 0) {
        Some(lo) => t.subrange(lo, t.len() as int),
        None => Seq::empty(),
    }
}

pub proof fn lemma_trimmed_len_bounds(s: Seq<char>)
    ensures
        0 <= trimmed_len(s) <= s.len(),
    decreases s.len(),
{
    if s.len() > 0 && is_space(s[s.len() - 1]) {
        lemma_trimmed_len_bounds(s.drop_last());
    }
}

/// Value of a decimal digit character.
pub open spec fn digit_val(c: char) -> int {
    c as int - 48
}

/// Every character of `s` is a decimal digit.
pub open spec fn all_digits(s: Seq<char>) -> bool {
    forall|i: int| 0 <= i < s.len() ==> is_digit(#[trigger] s[i])
}

/// The base-10 value of a digit string.
pub open spec fn digits_val(s: Seq<char>) -> int
    decreases s.len(),
{
    if s.len() == 0 {
        0
    } else {
        10 * digits_val(s.drop_last()) + digit_val(s[s.len() - 1])
    }
}

/// A numeric field with its optional leading `'+'` removed.
pub open spec fn num_body(s: Seq<char>) -> Seq<char> {
    if s.len() > 0 && s[0] == '+' {
        s.subrange(1, s.len() as int)
    } else {
        s
    }
}

/// Base-10 parse of a whole field: an optional leading `'+'`, then at least
/// one digit, with a value that fits the machine's word.
pub open spec fn parse_num(s: Seq<char>) -> Option<int> {
    let body = num_body(s);
    if body.len() > 0 && all_digits(body) && digits_val(body) <= usize::MAX as int {
        Some(digits_val(body))
    } else {
        None
    }
}

pub proof fn lemma_digits_val_nonneg(s: Seq<char>)
    requires
        all_digits(s),
    ensures
        digits_val(s) >= 0,
    decreases s.len(),
{
    if s.len() > 0 {
        assert(all_digits(s.drop_last())) by {
            assert(forall|i: int|
                0 <= i < s.drop_last().len() ==> #[trigger] s.drop_last()[i] == s[i]);
        }
        lemma_digits_val_nonneg(s.drop_last());
    }
}

/// A digit string's value bounds the value of each of its prefixes.
pub proof fn lemma_digits_val_prefix_le(s: Seq<char>, k: int)
    requires
        all_digits(s),
        0 <= k <= s.len(),
    ensures
        digits_val(s.take(k)) <= digits_val(s),
    decreases s.len() - k,
{
    if k == s.len() {
        assert(s.take(k) =~= s);
    } else {
        lemma_digits_val_prefix_le(s, k + 1);
        let p = s.take(k + 1);
        assert(p.drop_last() =~= s.take(k));
        assert(all_digits(s.take(k))) by {
            assert(forall|i: int|
                0 <= i < s.take(k).len() ==> #[trigger] s.take(k)[i] == s[i]);
        }
        lemma_digits_val_nonneg(s.take(k));
        assert(digits_val(p) == 10 * digits_val(s.take(k)) + digit_val(s[k]));
        assert(digit_val(s[k]) >= 0);
    }
}

/// A stroke entry decoded from one coordinate pair: the sentinel pair
/// `(-50, 0)` is a pen lift, anything else a drawable point.
pub open spec fn pair_entry(x: int, y: int) -> Option<(int, int)> {
    if x == -50 && y == 0 {
        None
    } else {
        Some((x, y))
    }
}

/// The stroke list encoded by a coordinate region, read two characters at a
/// time. A trailing odd character contributes nothing here; the decoder
/// rejects such a region instead.
pub open spec fn strokes_of(coords: Seq<char>) -> Seq<Option<(int, int)>> {
    Seq::new(
        (coords.len() / 2) as nat,
        |k: int| pair_entry(char_offset(coords[2 * k]), char_offset(coords[2 * k + 1])),
    )
}

/// The canonical scanning grammar. Offsets are into the line trimmed of
/// trailing whitespace:
/// the identifier field runs from the first non-whitespace character to the
/// first whitespace after it; the count field from there to the first
/// character that is neither whitespace nor a digit; then two bearing
/// characters; the rest is the coordinate region.
pub open spec fn scan_decode(line: Seq<char>) -> Result<GlyphModel, HersheyError> {
    let t = trim_end(line);
    if t.len() < 8 {
        Err(HersheyError::TooShort)
    } else {
        match find_nonspace(t, 0) {
            None => Err(HersheyError::InvalidSpacing),
            Some(st) => match find_space(t, st) {
                None => Err(HersheyError::InvalidSpacing),
                Some(fs) => match find_field_end(t, fs) {
                    None => Err(HersheyError::InvalidAfterwards),
                    Some(fa) => match parse_num(t.subrange(st, fs)) {
                        None => Err(HersheyError::NumericParse),
                        Some(id) => match parse_num(trim(t.subrange(fs, fa))) {
                            None => Err(HersheyError::NumericParse),
                            Some(count) => if fa + 2 > t.len() {
                                Err(HersheyError::TooShort)
                            } else if (t.len() - fa - 2) % 2 == 1 {
                                Err(HersheyError::MalformedVertices)
                            } else {
                                Ok(
                                    GlyphModel {
                                        id: id,
                                        vertex_num: if count >= 1 {
                                            count - 1
                                        } else {
                                            0
                                        },
                                        left_hand: char_offset(t[fa]),
                                        right_hand: char_offset(t[fa + 1]),
                                        vertex_data: strokes_of(t.subrange(fa + 2, t.len() as int)),
                                    },
                                )
                            },
                        },
                    },
                },
            },
        }
    }
}

/// Where the count field of the fixed-width reading ends: the first of the
/// three characters after the five-character identifier column that is
/// neither whitespace nor a digit, or the full three columns.
pub open spec fn fixed_early_end(t: Seq<char>) -> int
    recommends
        t.len() >= 8,
{
    if is_field_end(t[5]) {
        0
    } else if is_field_end(t[6]) {
        1
    } else if is_field_end(t[7]) {
        2
    } else {
        3
    }
}

/// The fixed-width reading that classic font files rely on: the identifier
/// occupies the first five columns and the count at most the next three, so
/// the two fields may abut without whitespace between them. A count of zero
/// is rejected, as readers of this fixed layout have always rejected it.
pub open spec fn fixed_decode(line: Seq<char>) -> Result<GlyphModel, HersheyError> {
    let t = trim_end(line);
    if t.len() < 8 {
        Err(HersheyError::TooShort)
    } else {
        match parse_num(trim(t.subrange(0, 5))) {
            None => Err(HersheyError::NumericParse),
            Some(id) => {
                let ee = fixed_early_end(t);
                match parse_num(trim(t.subrange(5, 5 + ee))) {
                    None => Err(HersheyError::NumericParse),
                    Some(count) => if count < 1 {
                        Err(HersheyError::TooShort)
                    } else if 5 + ee + 2 > t.len() {
                        Err(HersheyError::TooShort)
                    } else if (t.len() - (5 + ee) - 2) % 2 == 1 {
                        Err(HersheyError::MalformedVertices)
                    } else {
                        Ok(
                            GlyphModel {
                                id: id,
                                vertex_num: count - 1,
                                left_hand: char_offset(t[5 + ee]),
                                right_hand: char_offset(t[5 + ee + 1]),
                                vertex_data: strokes_of(t.subrange(5 + ee + 2, t.len() as int)),
                            },
                        )
                    },
                }
            },
        }
    }
}

/// What decoding one record yields. The scanning grammar is canonical; a
/// record that it rejects as numerically unparseable, as happens when a wide
/// identifier abuts the count field, is given the fixed-width reading, and
/// only a record that both readings reject fails.
pub open spec fn decode_spec(line: Seq<char>) -> Result<GlyphModel, HersheyError> {
    match scan_decode(line) {
        Err(HersheyError::NumericParse) => match fixed_decode(line) {
            Ok(g) => Ok(g),
            Err(_) => Err(HersheyError::NumericParse),
        },
        r => r,
    }
}

/// Decoding is deterministic: a line's decode outcome is a function of its
/// text alone. Together with [`HersheyChar::new_from_str`]'s contract, which
/// ties the returned value to [`decode_spec`] of the input, two calls on
/// identical text always yield an identical glyph or an identical error kind.
pub proof fn lemma_decode_deterministic(s1: Seq<char>, s2: Seq<char>)
    requires
        s1 == s2,
    ensures
        decode_spec(s1) == decode_spec(s2),
{
}

/// The stroke list follows the coordinate region alone: a record decoded by
/// the scanning grammar holds one stroke entry for each two characters after
/// the bearings, however large or small its declared count is.
pub proof fn lemma_strokes_follow_region(s: Seq<char>, g: GlyphModel)
    requires
        scan_decode(s) == Ok::<GlyphModel, HersheyError>(g),
    ensures
        ({
            let t = trim_end(s);
            let fa = find_field_end(t, find_space(t, find_nonspace(t, 0)->0)->0)->0;
            &&& g.vertex_data == strokes_of(t.subrange(fa + 2, t.len() as int))
            &&& g.vertex_data.len() == (t.len() - fa - 2) / 2
        }),
{
    let t = trim_end(s);
    lemma_trimmed_len_bounds(s);
    lemma_find_nonspace_bounds(t, 0);
    let st = find_nonspace(t, 0)->0;
    lemma_find_space_bounds(t, st);
    let fs = find_space(t, st)->0;
    lemma_find_field_end_bounds(t, fs);
}

/// The declared count buys nothing: two records that agree everywhere but in
/// the digits of their count field, with their fields at the same offsets,
/// decode to the same identifier, bearings and stroke list. Only the count
/// hint itself may differ.
pub proof fn lemma_stroke_count_independent(s1: Seq<char>, s2: Seq<char>, g1: GlyphModel, g2: GlyphModel)
    requires
        scan_decode(s1) == Ok::<GlyphModel, HersheyError>(g1),
        scan_decode(s2) == Ok::<GlyphModel, HersheyError>(g2),
        trim_end(s1).len() == trim_end(s2).len(),
        find_nonspace(trim_end(s1), 0) == find_nonspace(trim_end(s2), 0),
        find_space(trim_end(s1), find_nonspace(trim_end(s1), 0)->0) == find_space(
            trim_end(s2),
            find_nonspace(trim_end(s2), 0)->0,
        ),
        find_field_end(trim_end(s1), find_space(trim_end(s1), find_nonspace(trim_end(s1), 0)->0)->0)
            == find_field_end(
            trim_end(s2),
            find_space(trim_end(s2), find_nonspace(trim_end(s2), 0)->0)->0,
        ),
        ({
            let t1 = trim_end(s1);
            let t2 = trim_end(s2);
            let fs = find_space(t1, find_nonspace(t1, 0)->0)->0;
            let fa = find_field_end(t1, fs)->0;
            forall|x: int| 0 <= x < t1.len() && !(fs <= x < fa) ==> t1[x] == t2[x]
        }),
    ensures
        g1.id == g2.id,
        g1.left_hand == g2.left_hand,
        g1.right_hand == g2.right_hand,
        g1.vertex_data == g2.vertex_data,
{
    let t1 = trim_end(s1);
    let t2 = trim_end(s2);
    lemma_trimmed_len_bounds(s1);
    lemma_trimmed_len_bounds(s2);
    let st = find_nonspace(t1, 0)->0;
    lemma_find_nonspace_bounds(t1, 0);
    let fs = find_space(t1, st)->0;
    lemma_find_space_bounds(t1, st);
    let fa = find_field_end(t1, fs)->0;
    lemma_find_field_end_bounds(t1, fs);
    assert(t1.subrange(st, fs) =~= t2.subrange(st, fs));
    assert(t1.subrange(fa + 2, t1.len() as int) =~= t2.subrange(fa + 2, t2.len() as int));
}

/// A found non-whitespace index lies in range and is not whitespace.
pub proof fn lemma_find_nonspace_bounds(s: Seq<char>, i: int)
    requires
        0 <= i <= s.len(),
        find_nonspace(s, i) is Some,
    ensures
        i <= find_nonspace(s, i)->0 < s.len(),
        !is_space(s[find_nonspace(s, i)->0]),
    decreases s.len() - i,
{
    if i < s.len() && is_space(s[i]) {
        lemma_find_nonspace_bounds(s, i + 1);
    }
}

/// A found whitespace index lies in range and is whitespace.
pub proof fn lemma_find_space_bounds(s: Seq<char>, i: int)
    requires
        0 <= i <= s.len(),
        find_space(s, i) is Some,
    ensures
        i <= find_space(s, i)->0 < s.len(),
        is_space(s[find_space(s, i)->0]),
    decreases s.len() - i,
{
    if i < s.len() && !is_space(s[i]) {
        lemma_find_space_bounds(s, i + 1);
    }
}

/// A found field-ending index lies in range and ends the field.
pub proof fn lemma_find_field_end_bounds(s: Seq<char>, i: int)
    requires
        0 <= i <= s.len(),
        find_field_end(s, i) is Some,
    ensures
        i <= find_field_end(s, i)->0 < s.len(),
        is_field_end(s[find_field_end(s, i)->0]),
    decreases s.len() - i,
{
    if i < s.len() && !is_field_end(s[i]) {
        lemma_find_field_end_bounds(s, i + 1);
    }
}

proof fn lemma_find_nonspace_scan(s: Seq<char>, i: int, j: int)
    requires
        0 <= i <= j <= s.len(),
        forall|x: int| i <= x < j ==> is_space(#[trigger] s[x]),
    ensures
        find_nonspace(s, i) == find_nonspace(s, j),
    decreases j - i,
{
    if i < j {
        lemma_find_nonspace_scan(s, i + 1, j);
    }
}

proof fn lemma_find_space_scan(s: Seq<char>, i: int, j: int)
    requires
        0 <= i <= j <= s.len(),
        forall|x: int| i <= x < j ==> !is_space(#[trigger] s[x]),
    ensures
        find_space(s, i) == find_space(s, j),
    decreases j - i,
{
    if i < j {
        lemma_find_space_scan(s, i + 1, j);
    }
}

proof fn lemma_find_field_end_scan(s: Seq<char>, i: int, j: int)
    requires
        0 <= i <= j <= s.len(),
        forall|x: int| i <= x < j ==> !is_field_end(#[trigger] s[x]),
    ensures
        find_field_end(s, i) == find_field_end(s, j),
    decreases j - i,
{
    if i < j {
        lemma_find_field_end_scan(s, i + 1, j);
    }
}

proof fn lemma_trimmed_len_scan(s: Seq<char>, h: int)
    requires
        0 <= h <= s.len(),
        forall|x: int| h <= x < s.len() ==> is_space(#[trigger] s[x]),
        h > 0 ==> !is_space(s[h - 1]),
    ensures
        trimmed_len(s) == h,
    decreases s.len(),
{
    if s.len() == h {
    } else {
        assert(is_space(s[s.len() - 1]));
        assert(forall|x: int|
            h <= x < s.drop_last().len() ==> is_space(#[trigger] s.drop_last()[x]));
        if h > 0 {
            assert(s.drop_last()[h - 1] == s[h - 1]);
        }
        lemma_trimmed_len_scan(s.drop_last(), h);
    }
}

/// Runtime test for [`is_space`].
fn is_space_x(c: char) -> (r: bool)
    ensures
        r == is_space(c),
{
    c == ' ' || c == '\t' || c == '\n' || c == '\r' || c == '\u{c}'
}

/// Runtime test for [`is_digit`].
fn is_digit_x(c: char) -> (r: bool)
    ensures
        r == is_digit(c),
{
    let u: u32 = c as u32;
    48 <= u && u <= 57
}

/// Runtime test for [`is_field_end`].
fn is_field_end_x(c: char) -> (r: bool)
    ensures
        r == is_field_end(c),
{
    !is_space_x(c) && !is_digit_x(c)
}

/// The end of `v[lo..hi)` once trailing whitespace is dropped.
fn trim_end_index(v: &Vec<char>, lo: usize, hi: usize) -> (h: usize)
    requires
        lo <= hi <= v@.len(),
    ensures
        lo <= h <= hi,
        h - lo == trimmed_len(v@.subrange(lo as int, hi as int)),
        h > lo ==> !is_space(v@[h - 1]),
        forall|x: int| h <= x < hi ==> is_space(#[trigger] v@[x]),
{
    let ghost f = v@.subrange(lo as int, hi as int);
    let mut h: usize = hi;
    while h > lo && is_space_x(v[h - 1])
        invariant
            lo <= h <= hi <= v@.len(),
            forall|x: int| h <= x < hi ==> is_space(#[trigger] v@[x]),
        decreases h,
    {
        h = h - 1;
    }
    proof {
        assert(forall|x: int| h - lo <= x < f.len() ==> is_space(#[trigger] f[x]));
        if h > lo {
            assert(f[h - lo - 1] == v@[h - 1]);
        }
        lemma_trimmed_len_scan(f, h - lo);
    }
    h
}

/// The first index in `v[lo..hi)` holding a non-whitespace character, or `hi`.
fn skip_spaces(v: &Vec<char>, lo: usize, hi: usize) -> (l: usize)
    requires
        lo <= hi <= v@.len(),
    ensures
        lo <= l <= hi,
        forall|x: int| lo <= x < l ==> is_space(#[trigger] v@[x]),
        l < hi ==> !is_space(v@[l as int]),
{
    let mut l: usize = lo;
    while l < hi && is_space_x(v[l])
        invariant
            lo <= l <= hi <= v@.len(),
            forall|x: int| lo <= x < l ==> is_space(#[trigger] v@[x]),
        decreases hi - l,
    {
        l = l + 1;
    }
    l
}

/// Bounds of `v[lo..hi)` once whitespace is trimmed from both sides.
fn trim_range(v: &Vec<char>, lo: usize, hi: usize) -> (r: (usize, usize))
    requires
        lo <= hi <= v@.len(),
    ensures
        lo <= r.0 <= r.1 <= hi,
        v@.subrange(r.0 as int, r.1 as int) == trim(v@.subrange(lo as int, hi as int)),
{
    let ghost f = v@.subrange(lo as int, hi as int);
    let h = trim_end_index(v, lo, hi);
    let l = skip_spaces(v, lo, h);
    proof {
        let te = trim_end(f);
        assert(te =~= v@.subrange(lo as int, h as int));
        assert(forall|x: int| 0 <= x < l - lo ==> is_space(#[trigger] te[x]));
        lemma_find_nonspace_scan(te, 0, l - lo);
        if l < h {
            assert(te[l - lo] == v@[l as int]);
            assert(find_nonspace(te, l - lo) == Some((l - lo) as int));
            assert(trim(f) == te.subrange(l - lo, te.len() as int));
            assert(v@.subrange(l as int, h as int) =~= te.subrange(l - lo, te.len() as int));
        } else {
            assert(find_nonspace(te, l - lo) == None::<int>);
            assert(trim(f) == Seq::<char>::empty());
            assert(v@.subrange(l as int, h as int) =~= Seq::<char>::empty());
        }
    }
    (l, h)
}

/// Parse the field `v[lo..hi)` as [`parse_num`] does.
fn parse_num_range(v: &Vec<char>, lo: usize, hi: usize) -> (r: Option<usize>)
    requires
        lo <= hi <= v@.len(),
    ensures
        match r {
            Some(x) => parse_num(v@.subrange(lo as int, hi as int)) == Some(x as int),
            None => parse_num(v@.subrange(lo as int, hi as int)) is None,
        },
{
    let ghost f = v@.subrange(lo as int, hi as int);
    let mut i: usize = lo;
    if i < hi && v[i] == '+' {
        i = i + 1;
    }
    let ghost body = num_body(f);
    proof {
        assert(body =~= v@.subrange(i as int, hi as int));
    }
    if i == hi {
        return None;
    }
    let mut acc: usize = 0;
    let mut j: usize = i;
    while j < hi
        invariant
            lo <= i <= j <= hi <= v@.len(),
            body == num_body(v@.subrange(lo as int, hi as int)),
            body == v@.subrange(i as int, hi as int),
            body.len() == hi - i,
            all_digits(body.take(j - i)),
            acc as int == digits_val(body.take(j - i)),
        decreases hi - j,
    {
        let c = v[j];
        proof {
            assert(body[j - i] == v@[j as int]);
        }
        if !is_digit_x(c) {
            proof {
                assert(!is_digit(body[j - i]));
            }
            return None;
        }
        let d: usize = (c as u32 - 48) as usize;
        let ghost kk = j - i;
        proof {
            assert(body.take(kk + 1).drop_last() =~= body.take(kk as int));
            assert(body.take(kk + 1)[kk as int] == body[kk as int]);
            assert(digits_val(body.take(kk + 1)) == 10 * acc + d);
            vstd::arithmetic::div_mod::lemma_fundamental_div_mod(
                usize::MAX as int - d as int,
                10,
            );
        }
        if acc > (usize::MAX - d) / 10 {
            proof {
                assert(10 * acc + d > usize::MAX as int);
                if all_digits(body) {
                    lemma_digits_val_prefix_le(body, kk + 1);
                    assert(digits_val(body) > usize::MAX as int);
                }
            }
            return None;
        }
        proof {
            assert(10 * acc + d <= usize::MAX as int);
        }
        acc = acc * 10 + d;
        j = j + 1;
        proof {
            assert(all_digits(body.take(j - i))) by {
                assert(forall|x: int|
                    0 <= x < kk + 1 ==> #[trigger] body.take(kk + 1)[x] == body[x]);
                assert(forall|x: int|
                    0 <= x < kk ==> #[trigger] body.take(kk as int)[x] == body[x]);
            }
        }
    }
    proof {
        assert(body.take(j - i) =~= body);
    }
    Some(acc)
}

/// Decode the even-length coordinate region `v[from..n)` into stroke entries.
fn parse_strokes(v: &Vec<char>, from: usize, n: usize) -> (r: Vec<Option<(i8, i8)>>)
    requires
        from <= n <= v@.len(),
        (n - from) % 2 == 0,
    ensures
        entries_model(r@) == strokes_of(v@.subrange(from as int, n as int)),
{
    let ghost region = v@.subrange(from as int, n as int);
    let total: usize = n - from;
    let pairs: usize = total / 2;
    proof {
        vstd::arithmetic::div_mod::lemma_fundamental_div_mod(total as int, 2);
        assert(2 * pairs == total);
    }
    let mut out: Vec<Option<(i8, i8)>> = Vec::new();
    let mut k: usize = 0;
    while k < pairs
        invariant
            k <= pairs,
            2 * pairs == n - from,
            from <= n <= v@.len(),
            region == v@.subrange(from as int, n as int),
            out@.len() == k,
            forall|kk: int|
                0 <= kk < k ==> entry_model(#[trigger] out@[kk]) == pair_entry(
                    char_offset(region[2 * kk]),
                    char_offset(region[2 * kk + 1]),
                ),
        decreases pairs - k,
    {
        let x = HersheyChar::parse_ascii_ofs(v[from + 2 * k]);
        let y = HersheyChar::parse_ascii_ofs(v[from + 2 * k + 1]);
        proof {
            assert(region[2 * k] == v@[from + 2 * k]);
            assert(region[2 * k + 1] == v@[from + 2 * k + 1]);
        }
        let e: Option<(i8, i8)> = if x == -50 && y == 0 {
            None
        } else {
            Some((x, y))
        };
        out.push(e);
        k = k + 1;
    }
    proof {
        assert(entries_model(out@) =~= strokes_of(region));
    }
    out
}

/// Decode the fixed-width reading, reporting any failure as the scanning
/// grammar's numeric-parse failure on whose behalf it was consulted.
fn fixed_or_numeric(v: &Vec<char>, n: usize) -> (r: Result<HersheyChar, HersheyError>)
    requires
        8 <= n <= v@.len(),
        n as int == trimmed_len(v@),
    ensures
        match r {
            Ok(g) => fixed_decode(v@) == Ok::<GlyphModel, HersheyError>(g@),
            Err(e) => e == HersheyError::NumericParse && fixed_decode(v@) is Err,
        },
{
    let ghost t = trim_end(v@);
    proof {
        assert(t.len() == n);
        assert(forall|x: int| 0 <= x < n ==> #[trigger] t[x] == v@[x]);
    }
    let id_bounds = trim_range(v, 0, 5);
    proof {
        assert(v@.subrange(0, 5) =~= t.subrange(0, 5));
    }
    let id = match parse_num_range(v, id_bounds.0, id_bounds.1) {
        Some(x) => x,
        None => {
            return Err(HersheyError::NumericParse);
        },
    };
    let ee: usize = if is_field_end_x(v[5]) {
        0
    } else if is_field_end_x(v[6]) {
        1
    } else if is_field_end_x(v[7]) {
        2
    } else {
        3
    };
    proof {
        assert(ee as int == fixed_early_end(t));
    }
    let cnt_bounds = trim_range(v, 5, 5 + ee);
    proof {
        assert(v@.subrange(5, 5 + ee as int) =~= t.subrange(5, 5 + fixed_early_end(t)));
    }
    let count = match parse_num_range(v, cnt_bounds.0, cnt_bounds.1) {
        Some(x) => x,
        None => {
            return Err(HersheyError::NumericParse);
        },
    };
    if count < 1 {
        return Err(HersheyError::NumericParse);
    }
    if n - 5 - ee < 2 {
        return Err(HersheyError::NumericParse);
    }
    let lh = HersheyChar::parse_ascii_ofs(v[5 + ee]);
    let rh = HersheyChar::parse_ascii_ofs(v[5 + ee + 1]);
    let coord_start: usize = 5 + ee + 2;
    if (n - coord_start) % 2 == 1 {
        return Err(HersheyError::NumericParse);
    }
    let vertex_data = parse_strokes(v, coord_start, n);
    let c = HersheyChar {
        id,
        vertex_num: count - 1,
        left_hand: lh,
        right_hand: rh,
        vertex_data,
    };
    proof {
        assert(t[5 + ee as int] == v@[5 + ee as int]);
        assert(t[5 + ee as int + 1] == v@[5 + ee as int + 1]);
        assert(v@.subrange(coord_start as int, n as int) =~= t.subrange(
            5 + fixed_early_end(t) + 2,
            t.len() as int,
        ));
        assert(fixed_decode(v@) == Ok::<GlyphModel, HersheyError>(c@));
    }
    Ok(c)
}

/// The characters of `s`, one value per character.
pub(crate) fn collect_chars(s: &str) -> (r: Vec<char>)
    ensures
        r@ == s@,
{
    let n0: usize = s.unicode_len();
    let mut chars: Vec<char> = Vec::new();
    let mut i: usize = 0;
    while i < n0
        invariant
            i <= n0,
            n0 == s@.len(),
            chars@ == s@.take(i as int),
        decreases n0 - i,
    {
        let c = s.get_char(i);
        chars.push(c);
        proof {
            assert(chars@ =~= s@.take(i as int + 1));
        }
        i = i + 1;
    }
    proof {
        assert(chars@ =~= s@);
    }
    chars
}

/// Decode the trimmed record `v[0..n)` by the scanning grammar, falling back
/// to the fixed-width reading on a numeric-parse failure.
#[verifier::rlimit(60)]
fn decode_chars(v: &Vec<char>) -> (r: Result<HersheyChar, HersheyError>)
    ensures
        match r {
            Ok(g) => decode_spec(v@) == Ok::<GlyphModel, HersheyError>(g@),
            Err(e) => decode_spec(v@) == Err::<GlyphModel, HersheyError>(e),
        },
{
    proof {
        assert(v@.subrange(0, v@.len() as int) =~= v@);
    }
    let n = trim_end_index(v, 0, v.len());
    let ghost t = trim_end(v@);
    proof {
        assert(t =~= v@.subrange(0, n as int));
        assert(t.len() == n);
        assert(forall|x: int| 0 <= x < n ==> #[trigger] t[x] == v@[x]);
    }
    if n < 8 {
        return Err(HersheyError::TooShort);
    }
    // The identifier field starts at the first non-whitespace character.
    let st = skip_spaces(v, 0, n);
    proof {
        lemma_find_nonspace_scan(t, 0, st as int);
    }
    if st == n {
        return Err(HersheyError::InvalidSpacing);
    }
    // It ends at the first whitespace after it.
    let mut fs: usize = st;
    while fs < n && !is_space_x(v[fs])
        invariant
            st <= fs <= n <= v@.len(),
            t == trim_end(v@),
            t.len() == n,
            forall|x: int| 0 <= x < n ==> #[trigger] t[x] == v@[x],
            forall|x: int| st <= x < fs ==> !is_space(#[trigger] v@[x]),
        decreases n - fs,
    {
        fs = fs + 1;
    }
    proof {
        lemma_find_space_scan(t, st as int, fs as int);
    }
    if fs == n {
        return Err(HersheyError::InvalidSpacing);
    }
    // The count field ends at the first character that is neither whitespace
    // nor a digit; the bearings and coordinates follow.
    let mut fa: usize = fs;
    while fa < n && !is_field_end_x(v[fa])
        invariant
            fs <= fa <= n <= v@.len(),
            t == trim_end(v@),
            t.len() == n,
            forall|x: int| 0 <= x < n ==> #[trigger] t[x] == v@[x],
            forall|x: int| fs <= x < fa ==> !is_field_end(#[trigger] v@[x]),
        decreases n - fa,
    {
        fa = fa + 1;
    }
    proof {
        lemma_find_field_end_scan(t, fs as int, fa as int);
    }
    if fa == n {
        return Err(HersheyError::InvalidAfterwards);
    }
    proof {
        assert(v@.subrange(st as int, fs as int) =~= t.subrange(st as int, fs as int));
    }
    let id = match parse_num_range(v, st, fs) {
        Some(x) => x,
        None => {
            return fixed_or_numeric(v, n);
        },
    };
    let cnt_bounds = trim_range(v, fs, fa);
    proof {
        assert(v@.subrange(fs as int, fa as int) =~= t.subrange(fs as int, fa as int));
    }
    let count = match parse_num_range(v, cnt_bounds.0, cnt_bounds.1) {
        Some(x) => x,
        None => {
            return fixed_or_numeric(v, n);
        },
    };
    if n - fa < 2 {
        return Err(HersheyError::TooShort);
    }
    let lh = HersheyChar::parse_ascii_ofs(v[fa]);
    let rh = HersheyChar::parse_ascii_ofs(v[fa + 1]);
    let coord_start: usize = fa + 2;
    if (n - coord_start) % 2 == 1 {
        return Err(HersheyError::MalformedVertices);
    }
    let vertex_data = parse_strokes(v, coord_start, n);
    let c = HersheyChar {
        id,
        vertex_num: if count >= 1 {
            count - 1
        } else {
            0
        },
        left_hand: lh,
        right_hand: rh,
        vertex_data,
    };
    proof {
        assert(t[fa as int] == v@[fa as int]);
        assert(t[fa as int + 1] == v@[fa as int + 1]);
        assert(v@.subrange(coord_start as int, n as int) =~= t.subrange(
            fa as int + 2,
            t.len() as int,
        ));
        assert(scan_decode(v@) == Ok::<GlyphModel, HersheyError>(c@));
    }
    Ok(c)
}

impl HersheyChar {
    /// Decode one record character into its signed offset from `'R'`
    /// (code point 82). No validation: characters outside the printable
    /// range simply yield an out-of-range offset.
    pub fn parse_ascii_ofs(c: char) -> (r: i8)
        ensures
            r as int == char_offset(c),
            (c as int) < 128 ==> r as int == c as int - 82,
    {
        let u: u32 = c as u32;
        let b: u32 = u % 256;
        let v: i32 = (b as i32) - 82;
        if v >= 128 {
            (v - 256) as i8
        } else {
            v as i8
        }
    }

    /// Decode one line of a font file into a glyph, or say why it cannot be.
    ///
    /// The result is exactly what [`decode_spec`] assigns to the line:
    /// the scanning grammar of [`scan_decode`], with [`fixed_decode`]'s
    /// fixed-width reading accepting the classic records whose identifier
    /// column abuts the count column.
    pub fn new_from_str(s: &str) -> (r: Result<Self, HersheyError>)
        ensures
            match r {
                Ok(g) => decode_spec(s@) == Ok::<GlyphModel, HersheyError>(g@),
                Err(e) => decode_spec(s@) == Err::<GlyphModel, HersheyError>(e),
            },
    {
        let chars = collect_chars(s);
        decode_chars(&chars)
    }
}

} // verus!
