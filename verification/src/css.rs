//! CSS generation: font-family lists, quoted CSS strings, and the
//! `@font-face` rules that inline font files as base64 data URLs.
use vstd::prelude::*;
use crate::fonts::{
    embedded_font_data_with_weight, embedded_font_of, generic_name, is_generic_lower, opt_view,
    FontCache,
};
use crate::text::{
    dec, eq_ignore_ascii_case, join, join_strings, lower, push_char, push_dec, push_str, split,
    split_chars, to_chars, to_lower, trim, trim_str, views, CharSet,
};

verus! {

/// One entry of a family list as the SVG writer reads it: white space, single
/// quotes, double quotes, then white space again are stripped from both ends.
pub open spec fn clean_token(t: Seq<char>) -> Seq<char> {
    trim(trim(trim(trim(t, CharSet::Ws), CharSet::One('\'')), CharSet::One('"')), CharSet::Ws)
}

pub fn clean_font_family_token(token: &str) -> (res: String)
    ensures
        res@ == clean_token(token@),
{
    let a = trim_str(token, &CharSet::Ws);
    let b = trim_str(a.as_str(), &CharSet::One('\''));
    let c = trim_str(b.as_str(), &CharSet::One('"'));
    trim_str(c.as_str(), &CharSet::Ws)
}

/// Whether `family` is a generic family, in any ASCII case.
pub fn is_generic_font_family(family: &str) -> (res: bool)
    ensures
        res == generic_name(lower(family@)),
{
    let low = to_lower(family);
    is_generic_lower(low.as_str())
}

/// The first cleaned entry of `parts` that is neither empty nor generic.
pub open spec fn first_named(parts: Seq<Seq<char>>) -> Option<Seq<char>>
    decreases parts.len(),
{
    if parts.len() == 0 {
        None
    } else {
        let t = clean_token(parts[0]);
        if t.len() != 0 && !generic_name(lower(t)) {
            Some(t)
        } else {
            first_named(parts.drop_first())
        }
    }
}

/// The first family of a CSS list that names a font (case kept).
pub fn primary_named_font_family(font_family: &str) -> (res: Option<String>)
    ensures
        opt_view(res) == first_named(split(font_family@, CharSet::One(','))),
{
    let parts = split_chars(&to_chars(font_family), &CharSet::One(','));
    let ghost all = views(parts@);
    let mut i: usize = 0;
    assert(all.skip(0) =~= all);
    while i < parts.len()
        invariant
            0 <= i <= parts.len(),
            all == views(parts@),
            all == split(font_family@, CharSet::One(',')),
            first_named(all.skip(i as int)) == first_named(all),
        decreases parts.len() - i,
    {
        let t = clean_font_family_token(parts[i].as_str());
        assert(all.skip(i as int)[0] == parts@[i as int]@);
        if !t.as_str().is_empty() && !is_generic_font_family(t.as_str()) {
            return Some(t);
        }
        assert(all.skip(i as int).drop_first() =~= all.skip(i + 1));
        i += 1;
    }
    None
}

pub open spec fn ident_start(c: char) -> bool {
    ('a' <= c && c <= 'z') || ('A' <= c && c <= 'Z') || c == '_' || c == '-'
}

pub open spec fn ident_char(c: char) -> bool {
    ident_start(c) || ('0' <= c && c <= '9')
}

/// An unquoted CSS identifier as the writer accepts it: an ASCII letter,
/// `_` or `-` first, then ASCII letters, digits, `_` or `-`.
pub open spec fn css_ident(s: Seq<char>) -> bool {
    s.len() > 0 && ident_start(s[0]) && forall|i: int| 1 <= i < s.len() ==> ident_char(#[trigger] s[i])
}

pub fn is_css_identifier(value: &str) -> (res: bool)
    ensures
        res == css_ident(value@),
{
    let v = to_chars(value);
    if v.len() == 0 {
        return false;
    }
    let first = v[0];
    if !(('a' <= first && first <= 'z') || ('A' <= first && first <= 'Z') || first == '_' || first
        == '-') {
        return false;
    }
    let mut i: usize = 1;
    while i < v.len()
        invariant
            1 <= i <= v.len(),
            v@ == value@,
            forall|k: int| 1 <= k < i ==> ident_char(#[trigger] v@[k]),
        decreases v.len() - i,
    {
        let c = v[i];
        if !(('a' <= c && c <= 'z') || ('A' <= c && c <= 'Z') || ('0' <= c && c <= '9') || c
            == '_' || c == '-') {
            assert(!ident_char(value@[i as int]));
            return false;
        }
        i += 1;
    }
    true
}

/// How one character is written inside a double-quoted CSS string.
pub open spec fn css_escape(c: char) -> Seq<char> {
    if c == '\\' {
        seq!['\\', '\\']
    } else if c == '"' {
        seq!['\\', '"']
    } else if c == '\n' {
        seq!['\\', 'a', ' ']
    } else if c == '\r' {
        Seq::<char>::empty()
    } else {
        seq![c]
    }
}

pub open spec fn css_escaped(s: Seq<char>) -> Seq<char>
    decreases s.len(),
{
    if s.len() == 0 {
        Seq::<char>::empty()
    } else {
        css_escaped(s.drop_last()) + css_escape(s.last())
    }
}

/// `s` as a double-quoted CSS string.
pub open spec fn css_quoted(s: Seq<char>) -> Seq<char> {
    seq!['"'] + css_escaped(s) + seq!['"']
}

/// Quotes `value` as a CSS string: backslashes and double quotes are
/// escaped, a newline becomes `\a `, carriage returns are dropped.
pub fn css_string(value: &str) -> (res: String)
    ensures
        res@ == css_quoted(value@),
{
    let v = to_chars(value);
    let mut out = String::new();
    push_char(&mut out, '"');
    let mut i: usize = 0;
    assert(v@.take(0) =~= Seq::<char>::empty());
    while i < v.len()
        invariant
            0 <= i <= v.len(),
            v@ == value@,
            out@ == seq!['"'] + css_escaped(v@.take(i as int)),
        decreases v.len() - i,
    {
        let c = v[i];
        assert(v@.take(i + 1).drop_last() =~= v@.take(i as int));
        if c == '\\' {
            push_char(&mut out, '\\');
            push_char(&mut out, '\\');
        } else if c == '"' {
            push_char(&mut out, '\\');
            push_char(&mut out, '"');
        } else if c == '\n' {
            push_char(&mut out, '\\');
            push_char(&mut out, 'a');
            push_char(&mut out, ' ');
        } else if c == '\r' {
        } else {
            push_char(&mut out, c);
        }
        assert(out@ =~= seq!['"'] + css_escaped(v@.take(i + 1)));
        i += 1;
    }
    assert(v@.take(v@.len() as int) =~= v@);
    push_char(&mut out, '"');
    assert(out@ =~= css_quoted(value@));
    out
}

/// How one cleaned family is written in a `font-family` declaration.
pub open spec fn css_family_entry(t: Seq<char>) -> Seq<char> {
    if generic_name(lower(t)) || css_ident(t) {
        t
    } else {
        css_quoted(t)
    }
}

/// The non-empty cleaned entries of `parts`, each written for CSS.
pub open spec fn css_family_entries(parts: Seq<Seq<char>>) -> Seq<Seq<char>>
    decreases parts.len(),
{
    if parts.len() == 0 {
        Seq::<Seq<char>>::empty()
    } else {
        let init = css_family_entries(parts.drop_last());
        let t = clean_token(parts.last());
        if t.len() == 0 {
            init
        } else {
            init.push(css_family_entry(t))
        }
    }
}

pub open spec fn css_family_list_of(font_family: Seq<char>) -> Seq<char> {
    let entries = css_family_entries(split(font_family, CharSet::One(',')));
    if entries.len() == 0 {
        "sans-serif"@
    } else {
        join(entries, seq![','])
    }
}

/// A font-family list rewritten for a CSS declaration: entries cleaned,
/// empty ones dropped, names that are not identifiers quoted; `sans-serif`
/// when nothing is left.
pub fn css_font_family_list(font_family: &str) -> (res: String)
    ensures
        res@ == css_family_list_of(font_family@),
{
    let parts = split_chars(&to_chars(font_family), &CharSet::One(','));
    let ghost all = views(parts@);
    let mut tokens: Vec<String> = Vec::new();
    let mut i: usize = 0;
    assert(all.take(0) =~= Seq::<Seq<char>>::empty());
    while i < parts.len()
        invariant
            0 <= i <= parts.len(),
            all == views(parts@),
            views(tokens@) == css_family_entries(all.take(i as int)),
        decreases parts.len() - i,
    {
        assert(all.take(i + 1).drop_last() =~= all.take(i as int));
        assert(all.take(i + 1).last() == parts@[i as int]@);
        let part = clean_font_family_token(parts[i].as_str());
        if !part.as_str().is_empty() {
            let entry = if is_generic_font_family(part.as_str()) || is_css_identifier(
                part.as_str(),
            ) {
                part
            } else {
                css_string(part.as_str())
            };
            let ghost before = views(tokens@);
            let ghost e = entry@;
            tokens.push(entry);
            assert(views(tokens@) =~= before.push(e));
        }
        i += 1;
    }
    assert(all.take(parts.len() as int) =~= all);
    if tokens.len() == 0 {
        "sans-serif".to_owned()
    } else {
        proof {
            reveal_strlit(",");
        }
        assert(","@ =~= seq![',']);
        join_strings(&tokens, ",")
    }
}

/// One entry of a family list as the tree-view writer reads it: white space,
/// single quotes, then double quotes are stripped from both ends.
pub open spec fn plain_token(t: Seq<char>) -> Seq<char> {
    trim(trim(trim(t, CharSet::Ws), CharSet::One('\'')), CharSet::One('"'))
}

pub open spec fn plain_tokens(parts: Seq<Seq<char>>) -> Seq<Seq<char>>
    decreases parts.len(),
{
    if parts.len() == 0 {
        Seq::<Seq<char>>::empty()
    } else {
        let init = plain_tokens(parts.drop_last());
        let t = plain_token(parts.last());
        if t.len() == 0 {
            init
        } else {
            init.push(t)
        }
    }
}

pub open spec fn normalized_family_of(font_family: Seq<char>) -> Seq<char> {
    join(plain_tokens(split(font_family, CharSet::One(','))), seq![','])
}

/// A family list with quotes and padding removed from each entry and empty
/// entries dropped, rejoined with bare commas.
pub fn normalize_font_family(font_family: &str) -> (res: String)
    ensures
        res@ == normalized_family_of(font_family@),
{
    let parts = split_chars(&to_chars(font_family), &CharSet::One(','));
    let ghost all = views(parts@);
    let mut tokens: Vec<String> = Vec::new();
    let mut i: usize = 0;
    assert(all.take(0) =~= Seq::<Seq<char>>::empty());
    while i < parts.len()
        invariant
            0 <= i <= parts.len(),
            all == views(parts@),
            views(tokens@) == plain_tokens(all.take(i as int)),
        decreases parts.len() - i,
    {
        assert(all.take(i + 1).drop_last() =~= all.take(i as int));
        assert(all.take(i + 1).last() == parts@[i as int]@);
        let a = trim_str(parts[i].as_str(), &CharSet::Ws);
        let b = trim_str(a.as_str(), &CharSet::One('\''));
        let t = trim_str(b.as_str(), &CharSet::One('"'));
        if !t.as_str().is_empty() {
            let ghost before = views(tokens@);
            let ghost e = t@;
            tokens.push(t);
            assert(views(tokens@) =~= before.push(e));
        }
        i += 1;
    }
    assert(all.take(parts.len() as int) =~= all);
    proof {
        reveal_strlit(",");
    }
    assert(","@ =~= seq![',']);
    join_strings(&tokens, ",")
}

/// The first entry of `parts` that is not empty once white space and double
/// quotes are stripped.
pub open spec fn first_font(parts: Seq<Seq<char>>) -> Option<Seq<char>>
    decreases parts.len(),
{
    if parts.len() == 0 {
        None
    } else {
        let t = trim(trim(parts[0], CharSet::Ws), CharSet::One('"'));
        if t.len() != 0 {
            Some(t)
        } else {
            first_font(parts.drop_first())
        }
    }
}

pub open spec fn primary_font_of(fonts: Seq<char>) -> Seq<char> {
    match first_font(split(fonts, CharSet::One(','))) {
        Some(t) => t,
        None => "Inter"@,
    }
}

/// The first font named in a family list, for the PNG rasterizer; `Inter`
/// when the list names none.
pub fn primary_font(fonts: &str) -> (res: String)
    ensures
        res@ == primary_font_of(fonts@),
{
    let parts = split_chars(&to_chars(fonts), &CharSet::One(','));
    let ghost all = views(parts@);
    let mut i: usize = 0;
    assert(all.skip(0) =~= all);
    while i < parts.len()
        invariant
            0 <= i <= parts.len(),
            all == views(parts@),
            all == split(fonts@, CharSet::One(',')),
            first_font(all.skip(i as int)) == first_font(all),
        decreases parts.len() - i,
    {
        let a = trim_str(parts[i].as_str(), &CharSet::Ws);
        let t = trim_str(a.as_str(), &CharSet::One('"'));
        assert(all.skip(i as int)[0] == parts@[i as int]@);
        if !t.as_str().is_empty() {
            return t;
        }
        assert(all.skip(i as int).drop_first() =~= all.skip(i + 1));
        i += 1;
    }
    "Inter".to_owned()
}

/// The base64 alphabet (`A-Z`, `a-z`, `0-9`, `+`, `/`).
pub open spec fn b64_digit(d: int) -> char {
    if d < 26 {
        ((d + 65) as u32) as char
    } else if d < 52 {
        ((d - 26 + 97) as u32) as char
    } else if d < 62 {
        ((d - 52 + 48) as u32) as char
    } else if d == 62 {
        '+'
    } else {
        '/'
    }
}

/// The four characters encoding the (up to) three bytes from index `i`,
/// padded with `=` where bytes are missing.
pub open spec fn b64_group(bytes: Seq<u8>, i: int) -> Seq<char> {
    let n = bytes.len() as int;
    let b0 = bytes[i] as int;
    let b1 = if i + 1 < n { bytes[i + 1] as int } else { 0 };
    let b2 = if i + 2 < n { bytes[i + 2] as int } else { 0 };
    let v = b0 * 65536 + b1 * 256 + b2;
    seq![
        b64_digit(v / 262144),
        b64_digit((v / 4096) % 64),
        if i + 1 < n { b64_digit((v / 64) % 64) } else { '=' },
        if i + 2 < n { b64_digit(v % 64) } else { '=' },
    ]
}

/// The encoding of the first `k` three-byte groups.
pub open spec fn b64_groups(bytes: Seq<u8>, k: nat) -> Seq<char>
    decreases k,
{
    if k == 0 {
        Seq::<char>::empty()
    } else {
        b64_groups(bytes, (k - 1) as nat) + b64_group(bytes, 3 * (k - 1))
    }
}

/// Standard padded base64 (RFC 4648) of `bytes`.
pub open spec fn base64_of(bytes: Seq<u8>) -> Seq<char> {
    b64_groups(bytes, ((bytes.len() + 2) / 3) as nat)
}

fn b64_char(d: u32) -> (res: char)
    requires
        d < 64,
    ensures
        res == b64_digit(d as int),
{
    if d < 26 {
        ((d + 65) as u8) as char
    } else if d < 52 {
        ((d - 26 + 97) as u8) as char
    } else if d < 62 {
        ((d - 52 + 48) as u8) as char
    } else if d == 62 {
        '+'
    } else {
        '/'
    }
}

proof fn lemma_b64_bits(b0: u32, b1: u32, b2: u32)
    requires
        b0 < 256,
        b1 < 256,
        b2 < 256,
    ensures
        ((b0 << 16u32) | (b1 << 8u32) | b2) == b0 * 65536 + b1 * 256 + b2,
{
    assert(((b0 << 16u32) | (b1 << 8u32) | b2) == b0 * 65536 + b1 * 256 + b2) by (bit_vector)
        requires
            b0 < 256,
            b1 < 256,
            b2 < 256,
    ;
}

proof fn lemma_b64_digits(v: u32)
    requires
        v < 16777216,
    ensures
        (v >> 18u32) & 0x3fu32 == v / 262144,
        (v >> 12u32) & 0x3fu32 == (v / 4096) % 64,
        (v >> 6u32) & 0x3fu32 == (v / 64) % 64,
        v & 0x3fu32 == v % 64,
{
    assert((v >> 18u32) & 0x3fu32 == v / 262144) by (bit_vector)
        requires
            v < 16777216,
    ;
    assert((v >> 12u32) & 0x3fu32 == (v / 4096) % 64) by (bit_vector);
    assert((v >> 6u32) & 0x3fu32 == (v / 64) % 64) by (bit_vector);
    assert(v & 0x3fu32 == v % 64) by (bit_vector);
}

proof fn lemma_b64_len(bytes: Seq<u8>, k: nat)
    ensures
        b64_groups(bytes, k).len() == 4 * k,
    decreases k,
{
    if k > 0 {
        lemma_b64_len(bytes, (k - 1) as nat);
    }
}

fn encode_group(bytes: &[u8], i: usize) -> (res: (char, char, char, char))
    requires
        i < bytes@.len(),
    ensures
        seq![res.0, res.1, res.2, res.3] == b64_group(bytes@, i as int),
{
    let n = bytes.len();
    let b0 = bytes[i] as u32;
    let b1: u32 = if n - i > 1 { bytes[i + 1] as u32 } else { 0 };
    let b2: u32 = if n - i > 2 { bytes[i + 2] as u32 } else { 0 };
    proof {
        lemma_b64_bits(b0, b1, b2);
    }
    let v = (b0 << 16u32) | (b1 << 8u32) | b2;
    proof {
        lemma_b64_digits(v);
    }
    let c0 = b64_char((v >> 18u32) & 0x3f);
    let c1 = b64_char((v >> 12u32) & 0x3f);
    let c2 = if n - i > 1 { b64_char((v >> 6u32) & 0x3f) } else { '=' };
    let c3 = if n - i > 2 { b64_char(v & 0x3f) } else { '=' };
    (c0, c1, c2, c3)
}

/// Base64-encodes `bytes` with `=` padding; the output is four characters
/// for every three bytes or part of three bytes.
pub fn base64_encode(bytes: &[u8]) -> (res: String)
    ensures
        res@ == base64_of(bytes@),
        res@.len() == 4 * ((bytes@.len() + 2) / 3),
        forall|g: int|
            0 <= g < (bytes@.len() + 2) / 3 ==> {
                &&& #[trigger] decoded_group(res@, g) == bytes_group(bytes@, 3 * g)
                &&& (res@[4 * g + 2] == '=' <==> 3 * g + 1 >= bytes@.len())
                &&& (res@[4 * g + 3] == '=' <==> 3 * g + 2 >= bytes@.len())
            },
{
    let out = base64_groups_encode(bytes);
    proof {
        lemma_base64_output_decodes(out@, bytes@);
    }
    out
}

/// The Base64 text of `bytes`, written group by group.
fn base64_groups_encode(bytes: &[u8]) -> (res: String)
    ensures
        res@ == base64_of(bytes@),
        res@.len() == 4 * ((bytes@.len() + 2) / 3),
{
    let n = bytes.len();
    let groups: usize = n / 3 + if n % 3 > 0 { 1 } else { 0 };
    assert(groups == (n + 2) / 3);
    let mut out = String::new();
    let mut k: usize = 0;
    while k < groups
        invariant
            0 <= k <= groups,
            n == bytes@.len(),
            groups == (n + 2) / 3,
            out@ == b64_groups(bytes@, k as nat),
        decreases groups - k,
    {
        let (c0, c1, c2, c3) = encode_group(bytes, 3 * k);
        push_char(&mut out, c0);
        push_char(&mut out, c1);
        push_char(&mut out, c2);
        push_char(&mut out, c3);
        assert(out@ =~= b64_groups(bytes@, k as nat) + seq![c0, c1, c2, c3]);
        k += 1;
    }
    proof {
        lemma_b64_len(bytes@, groups as nat);
    }
    out
}

/// The `@font-face` rule that inlines a font file for `family` at `weight`.
pub open spec fn font_face_rule(family: Seq<char>, weight: u16, font: (Seq<u8>, Seq<char>, Seq<char>)) -> Seq<char> {
    "@font-face{font-family:"@ + css_quoted(family) + ";src:url(data:"@ + font.1 + ";base64,"@
        + base64_of(font.0) + ") format(\""@ + font.2 + "\");font-weight:"@ + dec(weight as nat)
        + ";font-style:normal;}"@
}

/// `family` at `weight` is already among `seen`, ignoring ASCII case.
pub open spec fn seen_face(seen: Seq<(Seq<char>, u16)>, family: Seq<char>, weight: u16) -> bool {
    exists|j: int| 0 <= j < seen.len() && lower(#[trigger] seen[j].0) == lower(family) && seen[j].1 == weight
}

/// The families embedded so far and the CSS written for them, after the
/// requested (family list, weight) pairs in `faces`: each is reduced to its
/// first named family, skipped when that family and weight were embedded
/// already or no font file is cached for it, and embedded otherwise.
pub open spec fn font_faces_state(cache: Map<Seq<char>, Option<(Seq<u8>, u32)>>, faces: Seq<(Seq<char>, u16)>) -> (Seq<(Seq<char>, u16)>, Seq<char>)
    decreases faces.len(),
{
    if faces.len() == 0 {
        (Seq::<(Seq<char>, u16)>::empty(), Seq::<char>::empty())
    } else {
        let prev = font_faces_state(cache, faces.drop_last());
        let requested = faces.last();
        match first_named(split(requested.0, CharSet::One(','))) {
            None => prev,
            Some(family) => if seen_face(prev.0, family, requested.1) {
                prev
            } else {
                match embedded_font_of(cache, requested.0, requested.1) {
                    None => prev,
                    Some(font) => (
                        prev.0.push((family, requested.1)),
                        prev.1 + font_face_rule(family, requested.1, font),
                    ),
                }
            },
        }
    }
}

pub open spec fn faces_view(faces: Seq<(&str, u16)>) -> Seq<(Seq<char>, u16)> {
    faces.map_values(|p: (&str, u16)| (p.0@, p.1))
}

pub open spec fn seen_view(seen: Seq<(String, u16)>) -> Seq<(Seq<char>, u16)> {
    seen.map_values(|p: (String, u16)| (p.0@, p.1))
}

fn already_seen(seen: &Vec<(String, u16)>, family: &str, weight: u16) -> (res: bool)
    ensures
        res == seen_face(seen_view(seen@), family@, weight),
{
    let ghost sv = seen_view(seen@);
    let mut j: usize = 0;
    while j < seen.len()
        invariant
            0 <= j <= seen.len(),
            sv == seen_view(seen@),
            forall|k: int| 0 <= k < j ==> !(lower(#[trigger] sv[k].0) == lower(family@) && sv[k].1 == weight),
        decreases seen.len() - j,
    {
        if seen[j].1 == weight && eq_ignore_ascii_case(seen[j].0.as_str(), family) {
            assert(lower(sv[j as int].0) == lower(family@) && sv[j as int].1 == weight);
            return true;
        }
        j += 1;
    }
    false
}

/// `@font-face` rules inlining the font files for the requested families
/// and weights: one rule per distinct (first named family, weight), in
/// request order, skipping requests whose font file is not cached.
pub fn embedded_font_faces_css(cache: &FontCache, font_faces: &[(&str, u16)]) -> (res: String)
    ensures
        res@ == font_faces_state(cache@, faces_view(font_faces@)).1,
{
    let ghost all = faces_view(font_faces@);
    let mut seen: Vec<(String, u16)> = Vec::new();
    let mut css = String::new();
    let mut i: usize = 0;
    assert(all.take(0) =~= Seq::<(Seq<char>, u16)>::empty());
    while i < font_faces.len()
        invariant
            0 <= i <= font_faces.len(),
            all == faces_view(font_faces@),
            (seen_view(seen@), css@) == font_faces_state(cache@, all.take(i as int)),
        decreases font_faces.len() - i,
    {
        assert(all.take(i + 1).drop_last() =~= all.take(i as int));
        assert(all.take(i + 1).last() == (font_faces@[i as int].0@, font_faces@[i as int].1));
        let (font_family, font_weight) = font_faces[i];
        i += 1;
        let family = match primary_named_font_family(font_family) {
            Some(f) => f,
            None => continue,
        };
        if already_seen(&seen, family.as_str(), font_weight) {
            continue;
        }
        let font = match embedded_font_data_with_weight(cache, font_family, font_weight) {
            Some(f) => f,
            None => continue,
        };
        push_str(&mut css, "@font-face{font-family:");
        let quoted = css_string(family.as_str());
        push_str(&mut css, quoted.as_str());
        push_str(&mut css, ";src:url(data:");
        push_str(&mut css, font.mime_type);
        push_str(&mut css, ";base64,");
        let encoded = base64_encode(font.bytes.as_slice());
        push_str(&mut css, encoded.as_str());
        push_str(&mut css, ") format(\"");
        push_str(&mut css, font.format_hint);
        push_str(&mut css, "\");font-weight:");
        push_dec(&mut css, font_weight as u64);
        push_str(&mut css, ";font-style:normal;}");
        let ghost before = seen_view(seen@);
        let ghost fv = family@;
        seen.push((family, font_weight));
        assert(seen_view(seen@) =~= before.push((fv, font_weight)));
    }
    assert(all.take(font_faces.len() as int) =~= all);
    css
}

/// No family is embedded twice at the same weight: the families recorded
/// while writing `@font-face` rules are pairwise distinct, ignoring ASCII case.
pub proof fn lemma_font_faces_embedded_once(cache: Map<Seq<char>, Option<(Seq<u8>, u32)>>, faces: Seq<(Seq<char>, u16)>)
    ensures
        ({
            let seen = font_faces_state(cache, faces).0;
            forall|a: int, b: int|
                0 <= a < b < seen.len() ==> !(lower(#[trigger] seen[a].0) == lower(#[trigger] seen[b].0)
                    && seen[a].1 == seen[b].1)
        }),
    decreases faces.len(),
{
    if faces.len() > 0 {
        lemma_font_faces_embedded_once(cache, faces.drop_last());
        let prev = font_faces_state(cache, faces.drop_last()).0;
        let seen = font_faces_state(cache, faces).0;
        assert forall|a: int, b: int|
            0 <= a < b < seen.len() implies !(lower(#[trigger] seen[a].0) == lower(#[trigger] seen[b].0)
                && seen[a].1 == seen[b].1) by {
            if b == prev.len() {
                assert(seen[a] == prev[a]);
                if lower(seen[a].0) == lower(seen[b].0) && seen[a].1 == seen[b].1 {
                    assert(seen_face(prev, seen[b].0, seen[b].1));
                }
            } else {
                assert(seen[a] == prev[a]);
                assert(seen[b] == prev[b]);
            }
        }
    }
}

/// The family a request embeds: the first named family of its list.
pub open spec fn request_family(req: (Seq<char>, u16)) -> Option<Seq<char>> {
    first_named(split(req.0, CharSet::One(',')))
}

/// A request names a family and a face is cached for its list and weight.
pub open spec fn embeddable(cache: Map<Seq<char>, Option<(Seq<u8>, u32)>>, req: (Seq<char>, u16)) -> bool {
    request_family(req) is Some && embedded_font_of(cache, req.0, req.1) is Some
}

/// The `@font-face` rule an embeddable request is written as.
pub open spec fn request_rule(cache: Map<Seq<char>, Option<(Seq<u8>, u32)>>, req: (Seq<char>, u16)) -> Seq<char> {
    font_face_rule(request_family(req)->0, req.1, embedded_font_of(cache, req.0, req.1)->0)
}

/// The positions of the requests that get a rule: the embeddable ones whose
/// family (ignoring ASCII case) and weight no earlier request got a rule for.
pub open spec fn picked_of(cache: Map<Seq<char>, Option<(Seq<u8>, u32)>>, faces: Seq<(Seq<char>, u16)>) -> Seq<int>
    decreases faces.len(),
{
    if faces.len() == 0 {
        Seq::<int>::empty()
    } else {
        let prev = picked_of(cache, faces.drop_last());
        let r = faces.last();
        if embeddable(cache, r) && !seen_face(font_faces_state(cache, faces.drop_last()).0, request_family(r)->0, r.1) {
            prev.push(faces.len() - 1)
        } else {
            prev
        }
    }
}

/// The rules of the requests at `picked`, one after the other.
pub open spec fn rules_of(cache: Map<Seq<char>, Option<(Seq<u8>, u32)>>, faces: Seq<(Seq<char>, u16)>, picked: Seq<int>) -> Seq<char>
    decreases picked.len(),
{
    if picked.len() == 0 {
        Seq::<char>::empty()
    } else {
        rules_of(cache, faces, picked.drop_last()) + request_rule(cache, faces[picked.last()])
    }
}

proof fn lemma_rules_of_prefix(
    cache: Map<Seq<char>, Option<(Seq<u8>, u32)>>,
    faces: Seq<(Seq<char>, u16)>,
    n: int,
    picked: Seq<int>,
)
    requires
        0 <= n <= faces.len(),
        forall|j: int| 0 <= j < picked.len() ==> 0 <= #[trigger] picked[j] < n,
    ensures
        rules_of(cache, faces, picked) == rules_of(cache, faces.take(n), picked),
    decreases picked.len(),
{
    if picked.len() > 0 {
        let q = picked.drop_last();
        assert forall|j: int| 0 <= j < q.len() implies 0 <= #[trigger] q[j] < n by {
            assert(q[j] == picked[j]);
        }
        lemma_rules_of_prefix(cache, faces, n, q);
        assert(picked.last() == picked[picked.len() - 1]);
        assert(faces.take(n)[picked.last()] == faces[picked.last()]);
    }
}

proof fn lemma_faces_step(cache: Map<Seq<char>, Option<(Seq<u8>, u32)>>, faces: Seq<(Seq<char>, u16)>)
    requires
        faces.len() > 0,
    ensures
        ({
            let pre = faces.drop_last();
            let r = faces.last();
            let st0 = font_faces_state(cache, pre);
            if embeddable(cache, r) && !seen_face(st0.0, request_family(r)->0, r.1) {
                &&& font_faces_state(cache, faces) == (
                    st0.0.push((request_family(r)->0, r.1)),
                    st0.1 + request_rule(cache, r),
                )
                &&& picked_of(cache, faces) == picked_of(cache, pre).push(faces.len() - 1)
            } else {
                &&& font_faces_state(cache, faces) == st0
                &&& picked_of(cache, faces) == picked_of(cache, pre)
            }
        }),
{
}

/// The rule-taking requests and the families recorded for them agree, and
/// the CSS is their rules in order.
proof fn lemma_picked_entries(cache: Map<Seq<char>, Option<(Seq<u8>, u32)>>, faces: Seq<(Seq<char>, u16)>)
    ensures
        picked_of(cache, faces).len() == font_faces_state(cache, faces).0.len(),
        forall|j: int|
            0 <= j < picked_of(cache, faces).len() ==> {
                &&& 0 <= #[trigger] picked_of(cache, faces)[j] < faces.len()
                &&& embeddable(cache, faces[picked_of(cache, faces)[j]])
                &&& font_faces_state(cache, faces).0[j] == (
                    request_family(faces[picked_of(cache, faces)[j]])->0,
                    faces[picked_of(cache, faces)[j]].1,
                )
            },
        font_faces_state(cache, faces).1 == rules_of(cache, faces, picked_of(cache, faces)),
    decreases faces.len(),
{
    if faces.len() > 0 {
        let pre = faces.drop_last();
        let n = faces.len() - 1;
        lemma_picked_entries(cache, pre);
        lemma_faces_step(cache, faces);
        let p0 = picked_of(cache, pre);
        let p = picked_of(cache, faces);
        let seen0 = font_faces_state(cache, pre).0;
        let seen = font_faces_state(cache, faces).0;
        assert(pre =~= faces.take(n));
        lemma_rules_of_prefix(cache, faces, n, p0);
        assert forall|j: int| 0 <= j < p.len() implies {
            &&& 0 <= #[trigger] p[j] < faces.len()
            &&& embeddable(cache, faces[p[j]])
            &&& seen[j] == (request_family(faces[p[j]])->0, faces[p[j]].1)
        } by {
            if j < p0.len() {
                assert(p[j] == p0[j]);
                assert(seen[j] == seen0[j]);
                assert(faces[p0[j]] == pre[p0[j]]);
            } else {
                assert(faces[n] == faces.last());
            }
        }
        if p.len() > p0.len() {
            assert(p.drop_last() =~= p0);
            assert(faces[p.last()] == faces.last());
        }
    }
}

proof fn lemma_picked_increasing(cache: Map<Seq<char>, Option<(Seq<u8>, u32)>>, faces: Seq<(Seq<char>, u16)>)
    ensures
        forall|j: int| 0 <= j < picked_of(cache, faces).len() ==> 0 <= #[trigger] picked_of(cache, faces)[j] < faces.len(),
        forall|a: int, b: int|
            0 <= a < b < picked_of(cache, faces).len() ==> #[trigger] picked_of(cache, faces)[a]
                < #[trigger] picked_of(cache, faces)[b],
    decreases faces.len(),
{
    if faces.len() > 0 {
        let pre = faces.drop_last();
        lemma_picked_increasing(cache, pre);
        lemma_faces_step(cache, faces);
        let p0 = picked_of(cache, pre);
        let p = picked_of(cache, faces);
        assert forall|j: int| 0 <= j < p.len() implies 0 <= #[trigger] p[j] < faces.len() by {
            if j < p0.len() {
                assert(p[j] == p0[j]);
            }
        }
        assert forall|a: int, b: int| 0 <= a < b < p.len() implies #[trigger] p[a] < #[trigger] p[b] by {
            assert(p[a] == p0[a]);
            if b < p0.len() {
                assert(p[b] == p0[b]);
            }
        }
    }
}

#[verifier::spinoff_prover]
#[verifier::rlimit(40)]
proof fn lemma_picked_cover(cache: Map<Seq<char>, Option<(Seq<u8>, u32)>>, faces: Seq<(Seq<char>, u16)>)
    ensures
        forall|k: int|
            0 <= k < faces.len() && embeddable(cache, #[trigger] faces[k]) ==> exists|j: int|
                0 <= j < picked_of(cache, faces).len() && #[trigger] picked_of(cache, faces)[j] <= k && lower(
                    font_faces_state(cache, faces).0[j].0,
                ) == lower(request_family(faces[k])->0) && font_faces_state(cache, faces).0[j].1 == faces[k].1,
    decreases faces.len(),
{
    if faces.len() > 0 {
        let pre = faces.drop_last();
        let n = faces.len() - 1;
        lemma_picked_cover(cache, pre);
        lemma_picked_entries(cache, pre);
        lemma_picked_increasing(cache, pre);
        lemma_faces_step(cache, faces);
        let p0 = picked_of(cache, pre);
        let p = picked_of(cache, faces);
        let seen0 = font_faces_state(cache, pre).0;
        let seen = font_faces_state(cache, faces).0;
        let r = faces.last();
        assert forall|k: int| 0 <= k < faces.len() && embeddable(cache, #[trigger] faces[k]) implies exists|j: int|
            0 <= j < p.len() && #[trigger] p[j] <= k && lower(seen[j].0) == lower(request_family(faces[k])->0)
                && seen[j].1 == faces[k].1 by {
            if k < n {
                assert(faces[k] == pre[k]);
                let j = choose|j: int|
                    0 <= j < p0.len() && #[trigger] p0[j] <= k && lower(seen0[j].0) == lower(request_family(pre[k])->0)
                        && seen0[j].1 == pre[k].1;
                assert(p[j] == p0[j]);
                assert(seen[j] == seen0[j]);
            } else {
                assert(faces[k] == r);
                if seen_face(seen0, request_family(r)->0, r.1) {
                    let j = choose|j: int|
                        0 <= j < seen0.len() && lower(#[trigger] seen0[j].0) == lower(request_family(r)->0)
                            && seen0[j].1 == r.1;
                    assert(p[j] == p0[j]);
                    assert(seen[j] == seen0[j]);
                    assert(p0[j] < n);
                } else {
                    assert(p[p0.len() as int] == n);
                    assert(seen[p0.len() as int] == (request_family(r)->0, r.1));
                }
            }
        }
    }
}

/// Every request that can be embedded is: the requests that get a rule are
/// embeddable ones, taken in request order; every embeddable request is
/// covered by such a rule for its family (ignoring ASCII case) and weight,
/// taken at or before it; and the CSS is exactly their rules, one each, in
/// that order.
pub proof fn lemma_font_faces_one_rule_each(cache: Map<Seq<char>, Option<(Seq<u8>, u32)>>, faces: Seq<(Seq<char>, u16)>)
    ensures
        ({
            let seen = font_faces_state(cache, faces).0;
            let p = picked_of(cache, faces);
            &&& p.len() == seen.len()
            &&& forall|j: int|
                0 <= j < p.len() ==> {
                    &&& 0 <= #[trigger] p[j] < faces.len()
                    &&& embeddable(cache, faces[p[j]])
                    &&& seen[j] == (request_family(faces[p[j]])->0, faces[p[j]].1)
                }
            &&& forall|a: int, b: int| 0 <= a < b < p.len() ==> #[trigger] p[a] < #[trigger] p[b]
            &&& forall|k: int|
                0 <= k < faces.len() && embeddable(cache, #[trigger] faces[k]) ==> exists|j: int|
                    0 <= j < p.len() && #[trigger] p[j] <= k && lower(seen[j].0) == lower(request_family(faces[k])->0)
                        && seen[j].1 == faces[k].1
            &&& font_faces_state(cache, faces).1 == rules_of(cache, faces, p)
        }),
{
    lemma_picked_entries(cache, faces);
    lemma_picked_increasing(cache, faces);
    lemma_picked_cover(cache, faces);
}

/// The Base64 digits are the RFC 4648 alphabet, in order: the 6-bit value
/// `d` is written as the `d`-th character of
/// `ABCDEFGHIJKLMNOPQRSTUVWXYZabcdefghijklmnopqrstuvwxyz0123456789+/`, so
/// distinct values get distinct characters and none of them is `=`.
pub proof fn lemma_b64_alphabet()
    ensures
        forall|d: int| 0 <= d < 64 ==> #[trigger] b64_digit(d) == "ABCDEFGHIJKLMNOPQRSTUVWXYZabcdefghijklmnopqrstuvwxyz0123456789+/"@[d],
        forall|d: int, e: int| 0 <= d < 64 && 0 <= e < 64 && d != e ==> #[trigger] b64_digit(d) != #[trigger] b64_digit(e),
        forall|d: int| 0 <= d < 64 ==> #[trigger] b64_digit(d) != '=',
{
    reveal_strlit("ABCDEFGHIJKLMNOPQRSTUVWXYZabcdefghijklmnopqrstuvwxyz0123456789+/");
    let alpha = "ABCDEFGHIJKLMNOPQRSTUVWXYZabcdefghijklmnopqrstuvwxyz0123456789+/"@;
    assert forall|d: int| 0 <= d < 64 implies #[trigger] b64_digit(d) == alpha[d] by {
        if d == 0 {
            assert(alpha[0] == 'A');
        } else if d == 1 {
            assert(alpha[1] == 'B');
        } else if d == 2 {
            assert(alpha[2] == 'C');
        } else if d == 3 {
            assert(alpha[3] == 'D');
        } else if d == 4 {
            assert(alpha[4] == 'E');
        } else if d == 5 {
            assert(alpha[5] == 'F');
        } else if d == 6 {
            assert(alpha[6] == 'G');
        } else if d == 7 {
            assert(alpha[7] == 'H');
        } else if d == 8 {
            assert(alpha[8] == 'I');
        } else if d == 9 {
            assert(alpha[9] == 'J');
        } else if d == 10 {
            assert(alpha[10] == 'K');
        } else if d == 11 {
            assert(alpha[11] == 'L');
        } else if d == 12 {
            assert(alpha[12] == 'M');
        } else if d == 13 {
            assert(alpha[13] == 'N');
        } else if d == 14 {
            assert(alpha[14] == 'O');
        } else if d == 15 {
            assert(alpha[15] == 'P');
        } else if d == 16 {
            assert(alpha[16] == 'Q');
        } else if d == 17 {
            assert(alpha[17] == 'R');
        } else if d == 18 {
            assert(alpha[18] == 'S');
        } else if d == 19 {
            assert(alpha[19] == 'T');
        } else if d == 20 {
            assert(alpha[20] == 'U');
        } else if d == 21 {
            assert(alpha[21] == 'V');
        } else if d == 22 {
            assert(alpha[22] == 'W');
        } else if d == 23 {
            assert(alpha[23] == 'X');
        } else if d == 24 {
            assert(alpha[24] == 'Y');
        } else if d == 25 {
            assert(alpha[25] == 'Z');
        } else if d == 26 {
            assert(alpha[26] == 'a');
        } else if d == 27 {
            assert(alpha[27] == 'b');
        } else if d == 28 {
            assert(alpha[28] == 'c');
        } else if d == 29 {
            assert(alpha[29] == 'd');
        } else if d == 30 {
            assert(alpha[30] == 'e');
        } else if d == 31 {
            assert(alpha[31] == 'f');
        } else if d == 32 {
            assert(alpha[32] == 'g');
        } else if d == 33 {
            assert(alpha[33] == 'h');
        } else if d == 34 {
            assert(alpha[34] == 'i');
        } else if d == 35 {
            assert(alpha[35] == 'j');
        } else if d == 36 {
            assert(alpha[36] == 'k');
        } else if d == 37 {
            assert(alpha[37] == 'l');
        } else if d == 38 {
            assert(alpha[38] == 'm');
        } else if d == 39 {
            assert(alpha[39] == 'n');
        } else if d == 40 {
            assert(alpha[40] == 'o');
        } else if d == 41 {
            assert(alpha[41] == 'p');
        } else if d == 42 {
            assert(alpha[42] == 'q');
        } else if d == 43 {
            assert(alpha[43] == 'r');
        } else if d == 44 {
            assert(alpha[44] == 's');
        } else if d == 45 {
            assert(alpha[45] == 't');
        } else if d == 46 {
            assert(alpha[46] == 'u');
        } else if d == 47 {
            assert(alpha[47] == 'v');
        } else if d == 48 {
            assert(alpha[48] == 'w');
        } else if d == 49 {
            assert(alpha[49] == 'x');
        } else if d == 50 {
            assert(alpha[50] == 'y');
        } else if d == 51 {
            assert(alpha[51] == 'z');
        } else if d == 52 {
            assert(alpha[52] == '0');
        } else if d == 53 {
            assert(alpha[53] == '1');
        } else if d == 54 {
            assert(alpha[54] == '2');
        } else if d == 55 {
            assert(alpha[55] == '3');
        } else if d == 56 {
            assert(alpha[56] == '4');
        } else if d == 57 {
            assert(alpha[57] == '5');
        } else if d == 58 {
            assert(alpha[58] == '6');
        } else if d == 59 {
            assert(alpha[59] == '7');
        } else if d == 60 {
            assert(alpha[60] == '8');
        } else if d == 61 {
            assert(alpha[61] == '9');
        } else if d == 62 {
            assert(alpha[62] == '+');
        } else if d == 63 {
            assert(alpha[63] == '/');
        }
    }
    assert forall|d: int, e: int| 0 <= d < 64 && 0 <= e < 64 && d != e implies #[trigger] b64_digit(d)
        != #[trigger] b64_digit(e) by {
        assert(b64_digit(d) as int == b64_digit(d) as u32);
    }
}

/// The 6-bit value a Base64 character stands for: its position in the
/// RFC 4648 alphabet; the `=` padding stands for 0.
#[verifier::opaque]
pub open spec fn b64_value(c: char) -> int {
    if c == '=' {
        0
    } else {
        choose|d: int| 0 <= d < 64 && "ABCDEFGHIJKLMNOPQRSTUVWXYZabcdefghijklmnopqrstuvwxyz0123456789+/"@[d] == c
    }
}

/// The 24 bits that the four characters of group `g` of `out` stand for.
pub open spec fn decoded_group(out: Seq<char>, g: int) -> int {
    b64_value(out[4 * g]) * 262144 + b64_value(out[4 * g + 1]) * 4096 + b64_value(out[4 * g + 2]) * 64
        + b64_value(out[4 * g + 3])
}

/// The three bytes from index `i`, as a 24-bit number; missing bytes are 0.
pub open spec fn bytes_group(bytes: Seq<u8>, i: int) -> int {
    let n = bytes.len() as int;
    let b1 = if i + 1 < n { bytes[i + 1] as int } else { 0 };
    let b2 = if i + 2 < n { bytes[i + 2] as int } else { 0 };
    bytes[i] as int * 65536 + b1 * 256 + b2
}

proof fn lemma_b64_groups_index(bytes: Seq<u8>, k: nat)
    ensures
        forall|g: int, j: int|
            0 <= g < k && 0 <= j < 4 ==> #[trigger] b64_groups(bytes, k)[4 * g + j] == b64_group(bytes, 3 * g)[j],
    decreases k,
{
    if k > 0 {
        lemma_b64_groups_index(bytes, (k - 1) as nat);
        lemma_b64_len(bytes, (k - 1) as nat);
        let pre = b64_groups(bytes, (k - 1) as nat);
        let all = b64_groups(bytes, k);
        assert forall|g: int, j: int| 0 <= g < k && 0 <= j < 4 implies #[trigger] all[4 * g + j] == b64_group(bytes, 3 * g)[j] by {
            if g < k - 1 {
                assert(all[4 * g + j] == pre[4 * g + j]);
            }
        }
    }
}

proof fn lemma_b64_value_of_digit(d: int)
    requires
        0 <= d < 64,
    ensures
        b64_value(b64_digit(d)) == d,
        b64_digit(d) != '=',
{
    reveal(b64_value);
    lemma_b64_alphabet();
    reveal_strlit("ABCDEFGHIJKLMNOPQRSTUVWXYZabcdefghijklmnopqrstuvwxyz0123456789+/");
    let c = b64_digit(d);
    assert("ABCDEFGHIJKLMNOPQRSTUVWXYZabcdefghijklmnopqrstuvwxyz0123456789+/"@[d] == c);
    assert(c != '=');
    let e = choose|e: int| 0 <= e < 64 && "ABCDEFGHIJKLMNOPQRSTUVWXYZabcdefghijklmnopqrstuvwxyz0123456789+/"@[e] == c;
    assert(0 <= e < 64 && "ABCDEFGHIJKLMNOPQRSTUVWXYZabcdefghijklmnopqrstuvwxyz0123456789+/"@[e] == c);
    assert(b64_digit(e) == c);
}

proof fn lemma_b64_reassemble(v: u32)
    requires
        v < 16777216,
    ensures
        (v / 262144) * 262144 + ((v / 4096) % 64) * 4096 + ((v / 64) % 64) * 64 + v % 64 == v,
        v % 256 == 0 ==> v % 64 == 0,
        v % 65536 == 0 ==> (v / 64) % 64 == 0 && v % 64 == 0,
{
    assert((v / 262144) * 262144 + ((v / 4096) % 64) * 4096 + ((v / 64) % 64) * 64 + v % 64 == v) by (bit_vector)
        requires
            v < 16777216,
    ;
    assert(v % 256 == 0 ==> v % 64 == 0) by (bit_vector);
    assert(v % 65536 == 0 ==> (v / 64) % 64 == 0 && v % 64 == 0) by (bit_vector);
}

proof fn lemma_group_digits(v: int)
    requires
        0 <= v < 16777216,
    ensures
        b64_value(b64_digit(v / 262144)) * 262144 + b64_value(b64_digit((v / 4096) % 64)) * 4096 + b64_value(
            b64_digit((v / 64) % 64),
        ) * 64 + b64_value(b64_digit(v % 64)) == v,
        b64_digit(v / 262144) != '=',
        b64_digit((v / 4096) % 64) != '=',
        b64_digit((v / 64) % 64) != '=',
        b64_digit(v % 64) != '=',
        v % 256 == 0 ==> v % 64 == 0,
        v % 65536 == 0 ==> (v / 64) % 64 == 0 && v % 64 == 0,
{
    let vu = v as u32;
    assert(vu as int == v);
    lemma_b64_reassemble(vu);
    lemma_b64_value_of_digit(v / 262144);
    lemma_b64_value_of_digit((v / 4096) % 64);
    lemma_b64_value_of_digit((v / 64) % 64);
    lemma_b64_value_of_digit(v % 64);
}

proof fn lemma_out_chars(bytes: Seq<u8>, g: int)
    requires
        0 <= g < (bytes.len() + 2) / 3,
    ensures
        base64_of(bytes)[4 * g] == b64_group(bytes, 3 * g)[0],
        base64_of(bytes)[4 * g + 1] == b64_group(bytes, 3 * g)[1],
        base64_of(bytes)[4 * g + 2] == b64_group(bytes, 3 * g)[2],
        base64_of(bytes)[4 * g + 3] == b64_group(bytes, 3 * g)[3],
{
    let k = ((bytes.len() + 2) / 3) as nat;
    lemma_b64_groups_index(bytes, k);
    assert(b64_groups(bytes, k)[4 * g + 0] == b64_group(bytes, 3 * g)[0]);
    assert(b64_groups(bytes, k)[4 * g + 1] == b64_group(bytes, 3 * g)[1]);
    assert(b64_groups(bytes, k)[4 * g + 2] == b64_group(bytes, 3 * g)[2]);
    assert(b64_groups(bytes, k)[4 * g + 3] == b64_group(bytes, 3 * g)[3]);
}

proof fn lemma_group_value(bytes: Seq<u8>, i: int)
    requires
        0 <= i < bytes.len(),
    ensures
        ({
            let grp = b64_group(bytes, i);
            let n = bytes.len() as int;
            &&& b64_value(grp[0]) * 262144 + b64_value(grp[1]) * 4096 + b64_value(grp[2]) * 64 + b64_value(grp[3])
                == bytes_group(bytes, i)
            &&& grp[0] != '='
            &&& grp[1] != '='
            &&& (grp[2] == '=' <==> i + 1 >= n)
            &&& (grp[3] == '=' <==> i + 2 >= n)
        }),
{
    let n = bytes.len() as int;
    let v = bytes_group(bytes, i);
    assert(0 <= v < 16777216);
    lemma_group_digits(v);
    lemma_b64_pad_value();
    lemma_b64_value_of_digit(v / 262144);
    lemma_b64_value_of_digit((v / 4096) % 64);
    lemma_b64_value_of_digit((v / 64) % 64);
    lemma_b64_value_of_digit(v % 64);
    let grp = b64_group(bytes, i);
    assert(grp[0] == b64_digit(v / 262144));
    assert(grp[1] == b64_digit((v / 4096) % 64));
    if i + 1 < n {
        assert(grp[2] == b64_digit((v / 64) % 64));
    } else {
        assert(v % 65536 == 0);
        assert(grp[2] == '=');
    }
    if i + 2 < n {
        assert(grp[3] == b64_digit(v % 64));
    } else {
        assert(v % 256 == 0);
        assert(grp[3] == '=');
    }
}

proof fn lemma_b64_pad_value()
    ensures
        b64_value('=') == 0,
{
    reveal(b64_value);
}

proof fn lemma_group_decodes(bytes: Seq<u8>, g: int)
    requires
        0 <= g < (bytes.len() + 2) / 3,
    ensures
        ({
            let out = base64_of(bytes);
            let n = bytes.len() as int;
            &&& decoded_group(out, g) == bytes_group(bytes, 3 * g)
            &&& out[4 * g] != '='
            &&& out[4 * g + 1] != '='
            &&& (out[4 * g + 2] == '=' <==> 3 * g + 1 >= n)
            &&& (out[4 * g + 3] == '=' <==> 3 * g + 2 >= n)
        }),
{
    lemma_out_chars(bytes, g);
    lemma_group_value(bytes, 3 * g);
}

/// Base64 output decodes back to the input: group `g` of four characters
/// stands, through the RFC 4648 alphabet, for the bytes `3g .. 3g + 3`;
/// the first two characters of a group are never padding, and the third and
/// fourth are `=` exactly where the input has no byte.
pub proof fn lemma_base64_decodes(bytes: Seq<u8>)
    ensures
        forall|g: int|
            0 <= g < (bytes.len() + 2) / 3 ==> {
                &&& #[trigger] decoded_group(base64_of(bytes), g) == bytes_group(bytes, 3 * g)
                &&& base64_of(bytes)[4 * g] != '='
                &&& base64_of(bytes)[4 * g + 1] != '='
                &&& (base64_of(bytes)[4 * g + 2] == '=' <==> 3 * g + 1 >= bytes.len())
                &&& (base64_of(bytes)[4 * g + 3] == '=' <==> 3 * g + 2 >= bytes.len())
            },
{
    assert forall|g: int| 0 <= g < (bytes.len() + 2) / 3 implies {
        &&& #[trigger] decoded_group(base64_of(bytes), g) == bytes_group(bytes, 3 * g)
        &&& base64_of(bytes)[4 * g] != '='
        &&& base64_of(bytes)[4 * g + 1] != '='
        &&& (base64_of(bytes)[4 * g + 2] == '=' <==> 3 * g + 1 >= bytes.len())
        &&& (base64_of(bytes)[4 * g + 3] == '=' <==> 3 * g + 2 >= bytes.len())
    } by {
        lemma_group_decodes(bytes, g);
    }
}

proof fn lemma_base64_output_decodes(out: Seq<char>, bytes: Seq<u8>)
    requires
        out == base64_of(bytes),
    ensures
        forall|g: int|
            0 <= g < (bytes.len() + 2) / 3 ==> {
                &&& #[trigger] decoded_group(out, g) == bytes_group(bytes, 3 * g)
                &&& (out[4 * g + 2] == '=' <==> 3 * g + 1 >= bytes.len())
                &&& (out[4 * g + 3] == '=' <==> 3 * g + 2 >= bytes.len())
            },
{
    assert forall|g: int| 0 <= g < (bytes.len() + 2) / 3 implies {
        &&& #[trigger] decoded_group(out, g) == bytes_group(bytes, 3 * g)
        &&& (out[4 * g + 2] == '=' <==> 3 * g + 1 >= bytes.len())
        &&& (out[4 * g + 3] == '=' <==> 3 * g + 2 >= bytes.len())
    } by {
        lemma_group_decodes(bytes, g);
        assert(decoded_group(out, g) == bytes_group(bytes, 3 * g));
        assert(out[4 * g + 2] == '=' <==> 3 * g + 1 >= bytes.len());
        assert(out[4 * g + 3] == '=' <==> 3 * g + 2 >= bytes.len());
    }
    assert(forall|g: int| 0 <= g < (bytes.len() + 2) / 3 ==> #[trigger] decoded_group(out, g) == bytes_group(bytes, 3 * g));
}

/// Standard decoding of a CSS string body, read from the front: `\a `
/// (the hex escape for a newline, with its terminating space) is a newline,
/// a backslash takes the next character as it is, and any other character
/// stands for itself.
pub open spec fn css_unescape(t: Seq<char>) -> Seq<char>
    decreases t.len(),
{
    if t.len() == 0 {
        Seq::<char>::empty()
    } else if t.len() >= 3 && t[0] == '\\' && t[1] == 'a' && t[2] == ' ' {
        seq!['\n'] + css_unescape(t.skip(3))
    } else if t.len() >= 2 && t[0] == '\\' {
        seq![t[1]] + css_unescape(t.skip(2))
    } else {
        seq![t[0]] + css_unescape(t.skip(1))
    }
}

proof fn lemma_css_escaped_concat(a: Seq<char>, b: Seq<char>)
    ensures
        css_escaped(a + b) == css_escaped(a) + css_escaped(b),
    decreases b.len(),
{
    if b.len() == 0 {
        assert(a + b =~= a);
        assert(css_escaped(a) + css_escaped(b) =~= css_escaped(a));
    } else {
        lemma_css_escaped_concat(a, b.drop_last());
        assert((a + b).drop_last() =~= a + b.drop_last());
        assert((a + b).last() == b.last());
        assert(css_escaped(a + b) =~= css_escaped(a) + css_escaped(b));
    }
}

/// Quoting a CSS string loses nothing but carriage returns: the quoted body
/// decodes to the input without its `\r`s, holds no raw line break, and every
/// double quote in it is escaped by a backslash before it.
pub proof fn lemma_css_string_round_trip(s: Seq<char>)
    ensures
        css_unescape(css_escaped(s)) == s.filter(|c: char| c != '\r'),
        forall|i: int| 0 <= i < css_escaped(s).len() ==> #[trigger] css_escaped(s)[i] != '\n' && css_escaped(s)[i] != '\r',
        forall|i: int| 0 <= i < css_escaped(s).len() && #[trigger] css_escaped(s)[i] == '"' ==> i > 0 && css_escaped(s)[i - 1] == '\\',
        css_quoted(s) == seq!['"'] + css_escaped(s) + seq!['"'],
    decreases s.len(),
{
    reveal(Seq::filter);
    if s.len() > 0 {
        let keep = |c: char| c != '\r';
        // Decoding, by the first character.
        let rest = s.drop_first();
        lemma_css_string_round_trip(rest);
        lemma_css_escaped_concat(seq![s[0]], rest);
        assert(seq![s[0]] + rest =~= s);
        let one = seq![s[0]];
        assert(one.drop_last() =~= Seq::<char>::empty());
        assert(one.last() == s[0]);
        assert(css_escaped(one.drop_last()) == Seq::<char>::empty());
        let e = css_escape(s[0]);
        assert(css_escaped(one) =~= e);
        let t = css_escaped(rest);
        let u = e + t;
        assert(u.skip(e.len() as int) =~= t);
        assert(one.filter(keep) == if keep(s[0]) { seq![s[0]] } else { Seq::<char>::empty() }) by {
            assert(one.drop_last().filter(keep) =~= Seq::<char>::empty());
        }
        Seq::filter_distributes_over_add(one, rest, keep);
        if s[0] == '\r' {
            assert(u =~= t);
            assert(Seq::<char>::empty() + rest.filter(keep) =~= rest.filter(keep));
        } else {
            assert(seq![s[0]] + css_unescape(t) == css_unescape(u));
        }
        // No raw line break; quotes escaped: by the last character.
        let pre = s.drop_last();
        lemma_css_string_round_trip(pre);
        let a = css_escaped(pre);
        let b = css_escape(s.last());
        let r = css_escaped(s);
        assert(r == a + b);
        assert forall|i: int| 0 <= i < r.len() implies #[trigger] r[i] != '\n' && r[i] != '\r' by {
            if i < a.len() {
                assert(r[i] == a[i]);
            } else {
                assert(r[i] == b[i - a.len()]);
            }
        }
        assert forall|i: int| 0 <= i < r.len() && #[trigger] r[i] == '"' implies i > 0 && r[i - 1] == '\\' by {
            if i < a.len() {
                assert(r[i] == a[i]);
                assert(r[i - 1] == a[i - 1]);
            } else {
                assert(r[i] == b[i - a.len()]);
                assert(s.last() == '"');
                assert(i == a.len() + 1);
                assert(r[i - 1] == b[0]);
            }
        }
    }
}

/// The characters of an unquoted CSS identifier: it starts with an ASCII
/// letter, `_` or `-`, and goes on with those or an ASCII digit.
pub proof fn lemma_css_ident_chars()
    ensures
        forall|c: char| ident_start(c) <==> "ABCDEFGHIJKLMNOPQRSTUVWXYZabcdefghijklmnopqrstuvwxyz_-"@.contains(c),
        forall|c: char| ident_char(c) <==> "ABCDEFGHIJKLMNOPQRSTUVWXYZabcdefghijklmnopqrstuvwxyz_-"@.contains(c) || "0123456789"@.contains(c),
{
    reveal_strlit("ABCDEFGHIJKLMNOPQRSTUVWXYZabcdefghijklmnopqrstuvwxyz_-");
    reveal_strlit("0123456789");
    let l = "ABCDEFGHIJKLMNOPQRSTUVWXYZabcdefghijklmnopqrstuvwxyz_-"@;
    let d = "0123456789"@;
    assert forall|c: char| ident_start(c) <==> l.contains(c) by {
        let v = c as int;
        if 'A' <= c && c <= 'Z' {
            assert(l[v - 65] == c);
        } else if 'a' <= c && c <= 'z' {
            assert(l[v - 97 + 26] == c);
        } else if c == '_' {
            assert(l[52] == c);
        } else if c == '-' {
            assert(l[53] == c);
        }
        if l.contains(c) {
            let i = choose|i: int| 0 <= i < l.len() && l[i] == c;
            if i == 0 {
                assert(l[0] == 'A');
            } else if i == 1 {
                assert(l[1] == 'B');
            } else if i == 2 {
                assert(l[2] == 'C');
            } else if i == 3 {
                assert(l[3] == 'D');
            } else if i == 4 {
                assert(l[4] == 'E');
            } else if i == 5 {
                assert(l[5] == 'F');
            } else if i == 6 {
                assert(l[6] == 'G');
            } else if i == 7 {
                assert(l[7] == 'H');
            } else if i == 8 {
                assert(l[8] == 'I');
            } else if i == 9 {
                assert(l[9] == 'J');
            } else if i == 10 {
                assert(l[10] == 'K');
            } else if i == 11 {
                assert(l[11] == 'L');
            } else if i == 12 {
                assert(l[12] == 'M');
            } else if i == 13 {
                assert(l[13] == 'N');
            } else if i == 14 {
                assert(l[14] == 'O');
            } else if i == 15 {
                assert(l[15] == 'P');
            } else if i == 16 {
                assert(l[16] == 'Q');
            } else if i == 17 {
                assert(l[17] == 'R');
            } else if i == 18 {
                assert(l[18] == 'S');
            } else if i == 19 {
                assert(l[19] == 'T');
            } else if i == 20 {
                assert(l[20] == 'U');
            } else if i == 21 {
                assert(l[21] == 'V');
            } else if i == 22 {
                assert(l[22] == 'W');
            } else if i == 23 {
                assert(l[23] == 'X');
            } else if i == 24 {
                assert(l[24] == 'Y');
            } else if i == 25 {
                assert(l[25] == 'Z');
            } else if i == 26 {
                assert(l[26] == 'a');
            } else if i == 27 {
                assert(l[27] == 'b');
            } else if i == 28 {
                assert(l[28] == 'c');
            } else if i == 29 {
                assert(l[29] == 'd');
            } else if i == 30 {
                assert(l[30] == 'e');
            } else if i == 31 {
                assert(l[31] == 'f');
            } else if i == 32 {
                assert(l[32] == 'g');
            } else if i == 33 {
                assert(l[33] == 'h');
            } else if i == 34 {
                assert(l[34] == 'i');
            } else if i == 35 {
                assert(l[35] == 'j');
            } else if i == 36 {
                assert(l[36] == 'k');
            } else if i == 37 {
                assert(l[37] == 'l');
            } else if i == 38 {
                assert(l[38] == 'm');
            } else if i == 39 {
                assert(l[39] == 'n');
            } else if i == 40 {
                assert(l[40] == 'o');
            } else if i == 41 {
                assert(l[41] == 'p');
            } else if i == 42 {
                assert(l[42] == 'q');
            } else if i == 43 {
                assert(l[43] == 'r');
            } else if i == 44 {
                assert(l[44] == 's');
            } else if i == 45 {
                assert(l[45] == 't');
            } else if i == 46 {
                assert(l[46] == 'u');
            } else if i == 47 {
                assert(l[47] == 'v');
            } else if i == 48 {
                assert(l[48] == 'w');
            } else if i == 49 {
                assert(l[49] == 'x');
            } else if i == 50 {
                assert(l[50] == 'y');
            } else if i == 51 {
                assert(l[51] == 'z');
            } else if i == 52 {
                assert(l[52] == '_');
            } else if i == 53 {
                assert(l[53] == '-');
            }
        }
    }
    assert forall|c: char| ident_char(c) <==> l.contains(c) || d.contains(c) by {
        if '0' <= c && c <= '9' {
            assert(d[c as int - 48] == c);
        }
        if d.contains(c) {
            let i = choose|i: int| 0 <= i < d.len() && d[i] == c;
            if i == 0 {
                assert(d[0] == '0');
            } else if i == 1 {
                assert(d[1] == '1');
            } else if i == 2 {
                assert(d[2] == '2');
            } else if i == 3 {
                assert(d[3] == '3');
            } else if i == 4 {
                assert(d[4] == '4');
            } else if i == 5 {
                assert(d[5] == '5');
            } else if i == 6 {
                assert(d[6] == '6');
            } else if i == 7 {
                assert(d[7] == '7');
            } else if i == 8 {
                assert(d[8] == '8');
            } else if i == 9 {
                assert(d[9] == '9');
            }
        }
    }
}

} // verus!
