//! Locating an embedded aesthetic score: tag matching, value
//! tokenization, and the supported-extension filter.

use vstd::prelude::*;
use crate::fields::{ExifField, FieldV};
use crate::text::{push_char, string_chars};
use vstd::string::StrSliceExecFns;

verus! {

/// A character with the Unicode `White_Space` property.
pub open spec fn is_space_char(c: char) -> bool {
    let u = c as int;
    (0x09 <= u && u <= 0x0D) || u == 0x20 || u == 0x85 || u == 0xA0 || u == 0x1680 || (0x2000
        <= u && u <= 0x200A) || u == 0x2028 || u == 0x2029 || u == 0x202F || u == 0x205F || u
        == 0x3000
}

/// Whether the character counts as whitespace when trimming a tag.
fn is_space(c: char) -> (r: bool)
    ensures
        r == is_space_char(c),
{
    let u = c as u32;
    (0x09 <= u && u <= 0x0D) || u == 0x20 || u == 0x85 || u == 0xA0 || u == 0x1680 || (0x2000
        <= u && u <= 0x200A) || u == 0x2028 || u == 0x2029 || u == 0x202F || u == 0x205F || u
        == 0x3000
}

/// The sequence without its leading whitespace.
pub open spec fn ltrim(s: Seq<char>) -> Seq<char>
    decreases s.len(),
{
    if s.len() == 0 {
        s
    } else if is_space_char(s[0]) {
        ltrim(s.drop_first())
    } else {
        s
    }
}

/// The sequence without its trailing whitespace.
pub open spec fn rtrim(s: Seq<char>) -> Seq<char>
    decreases s.len(),
{
    if s.len() == 0 {
        s
    } else if is_space_char(s.last()) {
        rtrim(s.drop_last())
    } else {
        s
    }
}

/// The sequence without leading and trailing whitespace.
pub open spec fn trim_spaces(s: Seq<char>) -> Seq<char> {
    rtrim(ltrim(s))
}

proof fn lemma_ltrim_skip(s: Seq<char>, k: int)
    requires
        0 <= k <= s.len(),
        forall|j: int| 0 <= j < k ==> is_space_char(#[trigger] s[j]),
        k < s.len() ==> !is_space_char(s[k]),
    ensures
        ltrim(s) == s.skip(k),
    decreases s.len(),
{
    if k == 0 {
        assert(s.skip(0) =~= s);
    } else {
        lemma_ltrim_skip(s.drop_first(), k - 1);
        assert(s.drop_first().skip(k - 1) =~= s.skip(k));
    }
}

proof fn lemma_rtrim_take(s: Seq<char>, k: int)
    requires
        0 <= k <= s.len(),
        forall|j: int| k <= j < s.len() ==> is_space_char(#[trigger] s[j]),
        k > 0 ==> !is_space_char(s[k - 1]),
    ensures
        rtrim(s) == s.take(k),
    decreases s.len(),
{
    if k == s.len() {
        assert(s.take(k) =~= s);
    } else {
        lemma_rtrim_take(s.drop_last(), k);
        assert(s.drop_last().take(k) =~= s.take(k));
    }
}

/// The Unicode scalar value of a character after tag normalization:
/// underscores and hyphens count as spaces, ASCII letters lose their
/// case.
pub open spec fn norm_scalar(c: char) -> int {
    if c == '_' || c == '-' {
        0x20
    } else if 0x41 <= c as int && c as int <= 0x5A {
        c as int + 0x20
    } else {
        c as int
    }
}

/// The scalar values of a character sequence.
pub open spec fn scalars_of(s: Seq<char>) -> Seq<int> {
    s.map_values(|c: char| c as int)
}

/// A tag, trimmed and normalized to scalar values.
pub open spec fn normalized_tag(s: Seq<char>) -> Seq<int> {
    trim_spaces(s).map_values(|c: char| norm_scalar(c))
}

/// Whether a tag names the aesthetic score: after trimming surrounding
/// whitespace, lowering ASCII letters, and reading `_` and `-` as spaces,
/// it reads "aesthetic score" or "aestheticscore".
pub open spec fn aesthetic_tag(s: Seq<char>) -> bool {
    normalized_tag(s) == scalars_of("aesthetic score"@) || normalized_tag(s) == scalars_of(
        "aestheticscore"@,
    )
}

/// Computes `norm_scalar` of a character.
fn norm_scalar_exec(c: char) -> (u: u32)
    ensures
        u as int == norm_scalar(c),
{
    if c == '_' || c == '-' {
        0x20
    } else {
        let u = c as u32;
        if 0x41 <= u && u <= 0x5A {
            u + 0x20
        } else {
            u
        }
    }
}

/// Whether the normalized window `v[start..end]` reads as `t`.
fn window_normalized_eq(v: &Vec<char>, start: usize, end: usize, t: &str) -> (r: bool)
    requires
        start <= end <= v@.len(),
    ensures
        r == (v@.subrange(start as int, end as int).map_values(|c: char| norm_scalar(c))
            == scalars_of(t@)),
{
    let ghost w = v@.subrange(start as int, end as int).map_values(|c: char| norm_scalar(c));
    let ghost tw = scalars_of(t@);
    let tlen = t.unicode_len();
    if end - start != tlen {
        assert(w.len() != tw.len());
        return false;
    }
    let mut i: usize = 0;
    while i < tlen
        invariant
            i <= tlen,
            tlen == t@.len(),
            start <= end <= v@.len(),
            end - start == tlen,
            w == v@.subrange(start as int, end as int).map_values(|c: char| norm_scalar(c)),
            tw == scalars_of(t@),
            forall|j: int| 0 <= j < i ==> w[j] == tw[j],
        decreases tlen - i,
    {
        let cu = norm_scalar_exec(v[start + i]);
        let tc = t.get_char(i);
        if cu != tc as u32 {
            assert(w[i as int] != tw[i as int]);
            return false;
        }
        assert(w[i as int] == tw[i as int]);
        i = i + 1;
    }
    assert(w =~= tw);
    true
}

/// The value of the first field whose tag names the aesthetic score.
pub open spec fn spec_first_aesthetic_value(fields: Seq<FieldV>) -> Option<Seq<char>>
    decreases fields.len(),
{
    if fields.len() == 0 {
        None
    } else if aesthetic_tag(fields[0].tag) {
        Some(fields[0].value)
    } else {
        spec_first_aesthetic_value(fields.drop_first())
    }
}

/// Returns the value of the first field, in order, whose tag names the
/// aesthetic score; nothing when no field does.
pub fn first_aesthetic_value(fields: &Vec<ExifField>) -> (r: Option<String>)
    ensures
        match r {
            Some(v) => spec_first_aesthetic_value(fields.deep_view()) == Some(v@),
            None => spec_first_aesthetic_value(fields.deep_view()) is None,
        },
{
    let ghost dv = fields.deep_view();
    proof {
        assert(dv.skip(0) =~= dv);
    }
    let mut i: usize = 0;
    while i < fields.len()
        invariant
            i <= fields@.len(),
            dv == fields.deep_view(),
            spec_first_aesthetic_value(dv) == spec_first_aesthetic_value(dv.skip(i as int)),
        decreases fields@.len() - i,
    {
        let f = &fields[i];
        proof {
            assert(dv.skip(i as int)[0] == dv[i as int]);
            assert(dv[i as int] == fields@[i as int].deep_view());
        }
        if is_aesthetic_tag(f.tag.as_str()) {
            return Some(f.value.clone());
        }
        proof {
            assert(dv.skip(i as int).drop_first() =~= dv.skip(i as int + 1));
        }
        i = i + 1;
    }
    proof {
        assert(dv.skip(i as int).len() == 0);
    }
    None
}

/// A character that may be part of a numeric score token: an ASCII digit,
/// `.`, `+` or `-`.
pub open spec fn is_score_char(c: char) -> bool {
    (0x30 <= c as int && c as int <= 0x39) || c == '.' || c == '+' || c == '-'
}

fn score_char(c: char) -> (r: bool)
    ensures
        r == is_score_char(c),
{
    let u = c as u32;
    (0x30 <= u && u <= 0x39) || c == '.' || c == '+' || c == '-'
}

/// Length of the maximal score-character prefix.
pub open spec fn token_len(s: Seq<char>) -> int
    decreases s.len(),
{
    if s.len() == 0 {
        0
    } else if !is_score_char(s[0]) {
        0
    } else {
        1 + token_len(s.drop_first())
    }
}

proof fn lemma_token_len_bounds(s: Seq<char>)
    ensures
        0 <= token_len(s) <= s.len(),
    decreases s.len(),
{
    if s.len() > 0 && is_score_char(s[0]) {
        lemma_token_len_bounds(s.drop_first());
    }
}

proof fn lemma_token_len_at(s: Seq<char>, k: int)
    requires
        0 <= k <= s.len(),
        forall|j: int| 0 <= j < k ==> is_score_char(#[trigger] s[j]),
        k < s.len() ==> !is_score_char(s[k]),
    ensures
        token_len(s) == k,
    decreases s.len(),
{
    if k > 0 {
        lemma_token_len_at(s.drop_first(), k - 1);
    }
}

/// The maximal runs of score characters, in order, each non-empty.
pub open spec fn split_score_tokens(s: Seq<char>) -> Seq<Seq<char>>
    decreases s.len(),
{
    if s.len() == 0 {
        seq![]
    } else if !is_score_char(s[0]) {
        split_score_tokens(s.drop_first())
    } else {
        let k = token_len(s);
        if 1 <= k <= s.len() {
            seq![s.take(k)] + split_score_tokens(s.skip(k))
        } else {
            seq![]
        }
    }
}

/// Splits a value into its score tokens: maximal runs of digits, `.`,
/// `+` and `-`, in order; other characters separate tokens and are
/// dropped, and no token is empty.
pub fn score_tokens(value: &str) -> (r: Vec<String>)
    ensures
        r.deep_view() == split_score_tokens(value@),
{
    let v = string_chars(value);
    let n = v.len();
    let mut out: Vec<String> = Vec::new();
    let mut i: usize = 0;
    proof {
        assert(value@.skip(0) =~= value@);
        assert(out.deep_view() =~= Seq::<Seq<char>>::empty());
    }
    while i < n
        invariant
            i <= n,
            n == v@.len(),
            v@ == value@,
            split_score_tokens(value@) == out.deep_view() + split_score_tokens(
                value@.skip(i as int),
            ),
        decreases n - i,
    {
        if !score_char(v[i]) {
            proof {
                assert(value@.skip(i as int).drop_first() =~= value@.skip(i as int + 1));
            }
            i = i + 1;
        } else {
            let tstart = i;
            let mut j = i + 1;
            while j < n && score_char(v[j])
                invariant
                    tstart < j <= n,
                    n == v@.len(),
                    v@ == value@,
                    forall|m: int| tstart <= m < j ==> is_score_char(#[trigger] v@[m]),
                decreases n - j,
            {
                j = j + 1;
            }
            proof {
                lemma_token_len_bounds(value@.skip(tstart as int));
                assert forall|m: int| 0 <= m < j - tstart implies is_score_char(
                    #[trigger] value@.skip(tstart as int)[m],
                ) by {
                    assert(value@.skip(tstart as int)[m] == v@[tstart + m]);
                }
                lemma_token_len_at(value@.skip(tstart as int), j - tstart);
            }
            let mut tok = String::new();
            let mut k = tstart;
            while k < j
                invariant
                    tstart <= k <= j <= n,
                    n == v@.len(),
                    v@ == value@,
                    tok@ == v@.subrange(tstart as int, k as int),
                decreases j - k,
            {
                push_char(&mut tok, v[k]);
                proof {
                    assert(v@.subrange(tstart as int, k + 1) =~= v@.subrange(
                        tstart as int,
                        k as int,
                    ).push(v@[k as int]));
                }
                k = k + 1;
            }
            let ghost pre = out.deep_view();
            out.push(tok);
            proof {
                assert(out.deep_view() =~= pre.push(tok@));
                let s_i = value@.skip(tstart as int);
                assert(s_i.take(j - tstart) =~= value@.subrange(tstart as int, j as int));
                assert(s_i.skip(j - tstart) =~= value@.skip(j as int));
                assert(split_score_tokens(s_i) == seq![tok@] + split_score_tokens(
                    value@.skip(j as int),
                ));
                assert(pre.push(tok@) + split_score_tokens(value@.skip(j as int)) =~= pre + (
                seq![tok@] + split_score_tokens(value@.skip(j as int))));
            }
            i = j;
        }
    }
    proof {
        assert(value@.skip(n as int).len() == 0);
        assert(out.deep_view() + split_score_tokens(value@.skip(n as int)) =~= out.deep_view());
    }
    out
}

/// The scalar value of a character with ASCII letters lowered.
pub open spec fn lower_scalar(c: char) -> int {
    if 0x41 <= c as int && c as int <= 0x5A {
        c as int + 0x20
    } else {
        c as int
    }
}

/// The final path component: everything after the last `/`.
pub open spec fn file_name_of(p: Seq<char>) -> Seq<char> {
    match p.index_of_last('/') {
        None => p,
        Some(i) => p.skip(i + 1),
    }
}

/// The extension of the final path component: everything after its last
/// `.`, unless there is none or the component starts with its only `.`.
pub open spec fn extension_of(p: Seq<char>) -> Option<Seq<char>> {
    let name = file_name_of(p);
    match name.index_of_last('.') {
        None => None,
        Some(i) => if i == 0 {
            None
        } else {
            Some(name.skip(i + 1))
        },
    }
}

/// Whether an extension, lowered, is one of the supported image kinds.
pub open spec fn supported_extension(e: Seq<char>) -> bool {
    let l = e.map_values(|c: char| lower_scalar(c));
    ||| l == scalars_of("jpg"@)
    ||| l == scalars_of("jpeg"@)
    ||| l == scalars_of("png"@)
    ||| l == scalars_of("tif"@)
    ||| l == scalars_of("tiff"@)
    ||| l == scalars_of("webp"@)
    ||| l == scalars_of("heic"@)
    ||| l == scalars_of("heif"@)
    ||| l == scalars_of("avif"@)
    ||| l == scalars_of("bmp"@)
}

/// Whether a path names a file with a supported image extension.
pub open spec fn supported_image_path(p: Seq<char>) -> bool {
    match extension_of(p) {
        None => false,
        Some(e) => supported_extension(e),
    }
}

fn lower_scalar_exec(c: char) -> (u: u32)
    ensures
        u as int == lower_scalar(c),
{
    let u = c as u32;
    if 0x41 <= u && u <= 0x5A {
        u + 0x20
    } else {
        u
    }
}

/// Whether the lowered window `v[start..end]` reads as `t`.
fn window_lower_eq(v: &Vec<char>, start: usize, end: usize, t: &str) -> (r: bool)
    requires
        start <= end <= v@.len(),
    ensures
        r == (v@.subrange(start as int, end as int).map_values(|c: char| lower_scalar(c))
            == scalars_of(t@)),
{
    let ghost w = v@.subrange(start as int, end as int).map_values(|c: char| lower_scalar(c));
    let ghost tw = scalars_of(t@);
    let tlen = t.unicode_len();
    if end - start != tlen {
        assert(w.len() != tw.len());
        return false;
    }
    let mut i: usize = 0;
    while i < tlen
        invariant
            i <= tlen,
            tlen == t@.len(),
            start <= end <= v@.len(),
            end - start == tlen,
            w == v@.subrange(start as int, end as int).map_values(|c: char| lower_scalar(c)),
            tw == scalars_of(t@),
            forall|j: int| 0 <= j < i ==> w[j] == tw[j],
        decreases tlen - i,
    {
        let cu = lower_scalar_exec(v[start + i]);
        let tc = t.get_char(i);
        if cu != tc as u32 {
            assert(w[i as int] != tw[i as int]);
            return false;
        }
        assert(w[i as int] == tw[i as int]);
        i = i + 1;
    }
    assert(w =~= tw);
    true
}

/// Whether the path has a supported image extension (case-insensitive):
/// one of jpg, jpeg, png, tif, tiff, webp, heic, heif, avif, bmp.
pub fn is_supported_image(path: &str) -> (r: bool)
    ensures
        r == supported_image_path(path@),
{
    let ghost p = path@;
    let v = string_chars(path);
    let n = v.len();
    // Find the start of the final path component.
    let mut m = n;
    let mut name_start: usize = 0;
    loop
        invariant_except_break
            name_start == 0,
        invariant
            m <= n,
            n == v@.len(),
            v@ == p,
            forall|j: int| m <= j < n ==> p[j] != '/',
        ensures
            name_start <= n,
            name_start == 0 ==> forall|j: int| 0 <= j < n ==> p[j] != '/',
            name_start > 0 ==> p[name_start - 1] == '/' && forall|j: int|
                name_start <= j < n ==> p[j] != '/',
        decreases m,
    {
        if m == 0 {
            break;
        }
        if v[m - 1] == '/' {
            name_start = m;
            break;
        }
        m = m - 1;
    }
    proof {
        p.index_of_last_ensures('/');
        match p.index_of_last('/') {
            Some(k) => {
                if name_start == 0 {
                    assert(p[k] != '/');
                } else {
                    if k < name_start - 1 {
                        assert(p[name_start - 1] != '/');
                    }
                    if k > name_start - 1 {
                        assert(p[k] != '/');
                    }
                    assert(k == name_start - 1);
                }
            },
            None => {
                if name_start > 0 {
                    assert(p.contains('/')) by {
                        assert(p[name_start - 1] == '/');
                    }
                }
            },
        }
        assert(file_name_of(p) =~= p.skip(name_start as int));
    }
    let ghost name = p.skip(name_start as int);
    // Find the last dot of the final component.
    let mut d = n;
    let mut dot_pos: usize = 0;
    let mut found_dot = false;
    loop
        invariant_except_break
            !found_dot,
        invariant
            name_start <= d <= n,
            n == v@.len(),
            v@ == p,
            forall|j: int| d <= j < n ==> p[j] != '.',
        ensures
            !found_dot ==> forall|j: int| name_start <= j < n ==> p[j] != '.',
            found_dot ==> name_start <= dot_pos < n && p[dot_pos as int] == '.' && forall|j: int|
                dot_pos < j < n ==> p[j] != '.',
        decreases d,
    {
        if d == name_start {
            break;
        }
        if v[d - 1] == '.' {
            dot_pos = d - 1;
            found_dot = true;
            break;
        }
        d = d - 1;
    }
    proof {
        name.index_of_last_ensures('.');
        assert forall|j: int| 0 <= j < name.len() implies name[j] == p[name_start + j] by {}
        match name.index_of_last('.') {
            Some(k) => {
                assert(name[k] == '.');
                if found_dot {
                    let rel = dot_pos - name_start;
                    if k < rel {
                        assert(name[rel] != '.');
                        assert(p[dot_pos as int] == name[rel]);
                    }
                    if k > rel {
                        assert(p[name_start + k] != '.');
                    }
                    assert(k == rel);
                } else {
                    assert(p[name_start + k] != '.');
                }
            },
            None => {
                if found_dot {
                    assert(name.contains('.')) by {
                        assert(name[dot_pos - name_start] == '.');
                    }
                }
            },
        }
    }
    if !found_dot {
        return false;
    }
    if dot_pos == name_start {
        return false;
    }
    let ext_start = dot_pos + 1;
    proof {
        assert(extension_of(p) == Some(name.skip(dot_pos - name_start + 1)));
        assert(name.skip(dot_pos - name_start + 1) =~= p.subrange(ext_start as int, n as int));
    }
    let r = window_lower_eq(&v, ext_start, n, "jpg") || window_lower_eq(&v, ext_start, n, "jpeg")
        || window_lower_eq(&v, ext_start, n, "png") || window_lower_eq(&v, ext_start, n, "tif")
        || window_lower_eq(&v, ext_start, n, "tiff") || window_lower_eq(&v, ext_start, n, "webp")
        || window_lower_eq(&v, ext_start, n, "heic") || window_lower_eq(&v, ext_start, n, "heif")
        || window_lower_eq(&v, ext_start, n, "avif") || window_lower_eq(&v, ext_start, n, "bmp");
    r
}

/// Whether the tag names the aesthetic score.
pub fn is_aesthetic_tag(tag: &str) -> (r: bool)
    ensures
        r == aesthetic_tag(tag@),
{
    let v = string_chars(tag);
    let n = v.len();
    let mut start: usize = 0;
    while start < n && is_space(v[start])
        invariant
            start <= n,
            n == v@.len(),
            v@ == tag@,
            forall|j: int| 0 <= j < start ==> is_space_char(#[trigger] v@[j]),
        decreases n - start,
    {
        start = start + 1;
    }
    let mut end: usize = n;
    while end > start && is_space(v[end - 1])
        invariant
            start <= end <= n,
            n == v@.len(),
            v@ == tag@,
            forall|j: int| end <= j < n ==> is_space_char(#[trigger] v@[j]),
        decreases end,
    {
        end = end - 1;
    }
    proof {
        lemma_ltrim_skip(tag@, start as int);
        lemma_rtrim_take(tag@.skip(start as int), end - start);
        assert(tag@.skip(start as int).take(end - start) =~= tag@.subrange(
            start as int,
            end as int,
        ));
    }
    let first = window_normalized_eq(&v, start, end, "aesthetic score");
    if first {
        return true;
    }
    window_normalized_eq(&v, start, end, "aestheticscore")
}

} // verus!
