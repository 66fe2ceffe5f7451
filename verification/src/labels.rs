//! Label text as the diagram writers read it: plain text of label lines,
//! C4 bracketed lines, class annotations, entity-relationship attribute rows
//! and kanban card metadata.
use vstd::prelude::*;
use crate::text::{
    contains_str, join, str_contains, char_lower, join_strings, lower, push_char, push_str, split, split_chars, str_eq,
    skip_end, string_of, to_upper, upper, words, words_of, is_ws, lemma_join_extend_last, to_chars, to_lower, trim, trim_end, trim_range, trim_str, views, CharSet,
};
use crate::fonts::opt_view;
use vstd::utf8::encode_utf8;

verus! {

/// A label's lines, as plain text.
pub struct TextBlock {
    pub lines: Vec<String>,
}

/// All lines of a label joined with single spaces.
pub fn text_block_plain(block: &TextBlock) -> (res: String)
    ensures
        res@ == join(views(block.lines@), seq![' ']),
{
    proof {
        reveal_strlit(" ");
    }
    assert(" "@ =~= seq![' ']);
    join_strings(&block.lines, " ")
}

/// The first line of a label, or the empty string.
pub fn first_text_line(label: &TextBlock) -> (res: String)
    ensures
        res@ == if label.lines@.len() == 0 { Seq::<char>::empty() } else { label.lines@[0]@ },
{
    if label.lines.len() == 0 {
        String::new()
    } else {
        label.lines[0].clone()
    }
}

/// C4 technology lines wrapped in one pair of brackets: `[` before the first
/// line and `]` after the last.
pub open spec fn bracketed_of(lines: Seq<Seq<char>>) -> Seq<Seq<char>> {
    if lines.len() == 0 {
        Seq::<Seq<char>>::empty()
    } else if lines.len() == 1 {
        seq![seq!['['] + lines[0] + seq![']']]
    } else {
        lines.update(0, seq!['['] + lines[0]).update(
            lines.len() - 1,
            lines.last().push(']'),
        )
    }
}

pub fn c4_bracketed_lines(lines: &[String]) -> (res: Vec<String>)
    ensures
        views(res@) == bracketed_of(views(lines@)),
{
    let n = lines.len();
    let ghost lv = views(lines@);
    let mut out: Vec<String> = Vec::new();
    let mut i: usize = 0;
    while i < n
        invariant
            0 <= i <= n,
            n == lines@.len(),
            lv == views(lines@),
            out@.len() == i,
            forall|k: int| 0 <= k < i ==> (#[trigger] out@[k])@ == bracketed_of(lv)[k],
        decreases n - i,
    {
        let mut line = String::new();
        if i == 0 {
            push_char(&mut line, '[');
        }
        push_str(&mut line, lines[i].as_str());
        if i + 1 == n {
            push_char(&mut line, ']');
        }
        assert(line@ =~= bracketed_of(lv)[i as int]);
        out.push(line);
        i += 1;
    }
    assert(views(out@) =~= bracketed_of(lv));
    out
}

/// A line that separates a class or entity header from its members.
pub fn is_divider_line(line: &str) -> (res: bool)
    ensures
        res == (trim(line@, CharSet::Ws) == "---"@),
{
    let t = trim_str(line, &CharSet::Ws);
    str_eq(t.as_str(), "---")
}

/// A class label line that is an annotation such as `«interface»`.
pub fn is_class_annotation_label_text(text: &str) -> (res: bool)
    ensures
        res == ({
            let t = trim(text@, CharSet::Ws);
            t.len() > 0 && t[0] == '\u{ab}' && t.last() == '\u{bb}'
        }),
{
    let v = to_chars(text);
    assert(v@.subrange(0, v@.len() as int) =~= v@);
    let (a, b) = trim_range(&v, 0, v.len(), &CharSet::Ws);
    a < b && v[a] == '\u{ab}' && v[b - 1] == '\u{bb}'
}

/// Index of the first `c` in `s`, or -1.
pub open spec fn index_of(s: Seq<char>, c: char) -> int
    decreases s.len(),
{
    if s.len() == 0 {
        -1
    } else {
        let k = index_of(s.drop_last(), c);
        if k >= 0 {
            k
        } else if s.last() == c {
            s.len() - 1
        } else {
            -1
        }
    }
}

/// Index of the last `c` in `s`, or -1.
pub open spec fn rindex_of(s: Seq<char>, c: char) -> int
    decreases s.len(),
{
    if s.len() == 0 {
        -1
    } else if s.last() == c {
        s.len() - 1
    } else {
        rindex_of(s.drop_last(), c)
    }
}

proof fn lemma_index_of_bounds(s: Seq<char>, c: char)
    ensures
        -1 <= index_of(s, c) < s.len(),
        index_of(s, c) >= 0 ==> s[index_of(s, c)] == c,
        -1 <= rindex_of(s, c) < s.len(),
        rindex_of(s, c) >= 0 ==> s[rindex_of(s, c)] == c,
    decreases s.len(),
{
    if s.len() > 0 {
        lemma_index_of_bounds(s.drop_last(), c);
    }
}

fn find_char(v: &Vec<char>, c: char) -> (res: usize)
    ensures
        res == if index_of(v@, c) >= 0 { index_of(v@, c) as usize } else { v.len() },
{
    let mut i: usize = 0;
    assert(v@.take(0) =~= Seq::<char>::empty());
    while i < v.len()
        invariant
            0 <= i <= v.len(),
            index_of(v@.take(i as int), c) == -1,
        decreases v.len() - i,
    {
        assert(v@.take(i + 1).drop_last() =~= v@.take(i as int));
        if v[i] == c {
            proof {
                lemma_prefix_index(v@, c, i as int);
            }
            return i;
        }
        i += 1;
    }
    assert(v@.take(v@.len() as int) =~= v@);
    v.len()
}

proof fn lemma_prefix_index(s: Seq<char>, c: char, i: int)
    requires
        0 <= i < s.len(),
        index_of(s.take(i), c) == -1,
        s[i] == c,
    ensures
        index_of(s, c) == i,
    decreases s.len(),
{
    if s.len() == i + 1 {
        assert(s.drop_last() =~= s.take(i));
    } else {
        assert(s.drop_last().take(i) =~= s.take(i));
        lemma_prefix_index(s.drop_last(), c, i);
    }
}

fn rfind_char(v: &Vec<char>, c: char) -> (res: usize)
    ensures
        res == if rindex_of(v@, c) >= 0 { rindex_of(v@, c) as usize } else { v.len() },
{
    let mut j: usize = v.len();
    assert(v@.take(v@.len() as int) =~= v@);
    while j > 0
        invariant
            0 <= j <= v.len(),
            rindex_of(v@.take(j as int), c) == rindex_of(v@, c),
        decreases j,
    {
        assert(v@.take(j as int).drop_last() =~= v@.take(j - 1));
        if v[j - 1] == c {
            return j - 1;
        }
        j -= 1;
    }
    v.len()
}

/// An attribute line split at its quoted comment: the text before the first
/// `"` (trailing white space dropped) and the trimmed text between the first
/// and last `"`, if that is not empty.
pub open spec fn er_comment_split(line: Seq<char>) -> (Seq<char>, Option<Seq<char>>) {
    let first = index_of(line, '"');
    let last = rindex_of(line, '"');
    if first < 0 || last <= first {
        (line, None)
    } else {
        let comment = trim(line.subrange(first + 1, last), CharSet::Ws);
        (
            trim_end(line.subrange(0, first), CharSet::Ws),
            if comment.len() == 0 { None } else { Some(comment) },
        )
    }
}

pub fn split_er_attribute_comment(line: &str) -> (res: (String, Option<String>))
    ensures
        (res.0@, opt_view(res.1)) == er_comment_split(line@),
{
    let v = to_chars(line);
    let first = find_char(&v, '"');
    let last = rfind_char(&v, '"');
    proof {
        lemma_index_of_bounds(v@, '"');
    }
    if first == v.len() || last == v.len() || last <= first {
        return (line.to_owned(), None);
    }
    let (a, b) = trim_range(&v, first + 1, last, &CharSet::Ws);
    let comment = if a == b {
        None
    } else {
        Some(string_of(&v, a, b))
    };
    let head_end = skip_end(&v, 0, first, &CharSet::Ws);
    (string_of(&v, 0, head_end), comment)
}

/// A kanban card line that carries metadata rather than title text.
pub open spec fn kanban_meta_line(line: Seq<char>) -> bool {
    let l = lower(line);
    contains_str(l, "ticket:"@) || contains_str(l, "assigned:"@) || contains_str(l, "priority:"@)
}

pub fn is_kanban_metadata_line(line: &str) -> (res: bool)
    ensures
        res == kanban_meta_line(line@),
{
    let l = to_lower(line);
    str_contains(l.as_str(), "ticket:") || str_contains(l.as_str(), "assigned:") || str_contains(
        l.as_str(),
        "priority:",
    )
}

/// A metadata key or value with white space, double quotes and single quotes
/// stripped from both ends.
pub open spec fn meta_strip(s: Seq<char>) -> Seq<char> {
    trim(trim(trim(s, CharSet::Ws), CharSet::One('"')), CharSet::One('\''))
}

/// One `key: value` piece: split at its first colon, key lower-cased; pieces
/// without a colon or with an empty key give nothing.
pub open spec fn meta_pair(piece: Seq<char>) -> Option<(Seq<char>, Seq<char>)> {
    let k = index_of(piece, ':');
    if k < 0 {
        None
    } else {
        let key = lower(meta_strip(piece.take(k)));
        let value = meta_strip(piece.skip(k + 1));
        if key.len() == 0 {
            None
        } else {
            Some((key, value))
        }
    }
}

pub open spec fn meta_pairs(pieces: Seq<Seq<char>>) -> Seq<(Seq<char>, Seq<char>)>
    decreases pieces.len(),
{
    if pieces.len() == 0 {
        Seq::<(Seq<char>, Seq<char>)>::empty()
    } else {
        let init = meta_pairs(pieces.drop_last());
        match meta_pair(pieces.last()) {
            Some(p) => init.push(p),
            None => init,
        }
    }
}

/// The `key: value` pairs of a metadata line, which separates pairs with
/// commas or newlines.
pub open spec fn kanban_pairs_of(input: Seq<char>) -> Seq<(Seq<char>, Seq<char>)> {
    meta_pairs(split(input, CharSet::Two(',', '\n')))
}

pub open spec fn pairs_view(v: Seq<(String, String)>) -> Seq<(Seq<char>, Seq<char>)> {
    v.map_values(|p: (String, String)| (p.0@, p.1@))
}

fn meta_strip_str(s: &str) -> (res: String)
    ensures
        res@ == meta_strip(s@),
{
    let a = trim_str(s, &CharSet::Ws);
    let b = trim_str(a.as_str(), &CharSet::One('"'));
    trim_str(b.as_str(), &CharSet::One('\''))
}

fn kanban_pair(piece: &str) -> (res: Option<(String, String)>)
    ensures
        match res {
            Some(p) => meta_pair(piece@) == Some((p.0@, p.1@)),
            None => meta_pair(piece@) is None,
        },
{
    let v = to_chars(piece);
    let k = find_char(&v, ':');
    proof {
        lemma_index_of_bounds(v@, ':');
    }
    if k == v.len() {
        return None;
    }
    let head = string_of(&v, 0, k);
    let tail = string_of(&v, k + 1, v.len());
    assert(head@ =~= piece@.take(k as int));
    assert(tail@ =~= piece@.skip(k + 1));
    let key_raw = meta_strip_str(head.as_str());
    let key = to_lower(key_raw.as_str());
    let value = meta_strip_str(tail.as_str());
    if key.as_str().is_empty() {
        return None;
    }
    Some((key, value))
}

/// The `key: value` pairs of a kanban metadata line.
pub fn parse_kanban_metadata_pairs(input: &str) -> (res: Vec<(String, String)>)
    ensures
        pairs_view(res@) == kanban_pairs_of(input@),
        forall|i: int| 0 <= i < res@.len() ==> (#[trigger] res@[i]).0@ == lower(res@[i].0@),
{
    let res = kanban_pairs_parsed(input);
    proof {
        lemma_kanban_keys_lower(input@);
        assert forall|i: int| 0 <= i < res@.len() implies (#[trigger] res@[i]).0@ == lower(res@[i].0@) by {
            assert(pairs_view(res@)[i] == (res@[i].0@, res@[i].1@));
        }
    }
    res
}

/// The pairs of `parse_kanban_metadata_pairs`, read piece by piece.
fn kanban_pairs_parsed(input: &str) -> (res: Vec<(String, String)>)
    ensures
        pairs_view(res@) == kanban_pairs_of(input@),
{
    let pieces = split_chars(&to_chars(input), &CharSet::Two(',', '\n'));
    let ghost all = views(pieces@);
    let mut out: Vec<(String, String)> = Vec::new();
    let mut i: usize = 0;
    assert(all.take(0) =~= Seq::<Seq<char>>::empty());
    while i < pieces.len()
        invariant
            0 <= i <= pieces.len(),
            all == views(pieces@),
            pairs_view(out@) == meta_pairs(all.take(i as int)),
        decreases pieces.len() - i,
    {
        assert(all.take(i + 1).drop_last() =~= all.take(i as int));
        assert(all.take(i + 1).last() == pieces@[i as int]@);
        match kanban_pair(pieces[i].as_str()) {
            Some(p) => {
                let ghost before = pairs_view(out@);
                let ghost pv = (p.0@, p.1@);
                out.push(p);
                assert(pairs_view(out@) =~= before.push(pv));
            },
            None => {},
        }
        i += 1;
    }
    assert(all.take(pieces.len() as int) =~= all);
    out
}

/// A kanban card's title lines and the metadata found on its other lines.
pub struct KanbanRenderParts {
    pub title_lines: Vec<String>,
    pub ticket: Option<String>,
    pub assigned: Option<String>,
    pub priority: Option<String>,
}

/// Title lines, ticket, assignee and priority after reading `lines`.
pub type KanbanView = (Seq<Seq<char>>, Option<Seq<char>>, Option<Seq<char>>, Option<Seq<char>>);

/// Metadata pairs applied in order: a later `ticket`, `assigned` or
/// `priority` replaces an earlier one; other keys are ignored.
pub open spec fn apply_meta(st: KanbanView, pairs: Seq<(Seq<char>, Seq<char>)>) -> KanbanView
    decreases pairs.len(),
{
    if pairs.len() == 0 {
        st
    } else {
        let s = apply_meta(st, pairs.drop_last());
        let (key, value) = pairs.last();
        if key == "ticket"@ {
            (s.0, Some(value), s.2, s.3)
        } else if key == "assigned"@ {
            (s.0, s.1, Some(value), s.3)
        } else if key == "priority"@ {
            (s.0, s.1, s.2, Some(value))
        } else {
            s
        }
    }
}

pub open spec fn kanban_parts_of(lines: Seq<Seq<char>>) -> KanbanView
    decreases lines.len(),
{
    if lines.len() == 0 {
        (Seq::<Seq<char>>::empty(), None, None, None)
    } else {
        let st = kanban_parts_of(lines.drop_last());
        let line = lines.last();
        if kanban_meta_line(line) {
            apply_meta(st, kanban_pairs_of(line))
        } else {
            (st.0.push(line), st.1, st.2, st.3)
        }
    }
}

pub open spec fn parts_view(p: KanbanRenderParts) -> KanbanView {
    (views(p.title_lines@), opt_view(p.ticket), opt_view(p.assigned), opt_view(p.priority))
}

/// Splits a kanban card label into title lines and its `ticket`,
/// `assigned` and `priority` metadata.
pub fn kanban_render_parts(label: &TextBlock) -> (res: KanbanRenderParts)
    ensures
        parts_view(res) == kanban_parts_of(views(label.lines@)),
{
    let ghost all = views(label.lines@);
    let mut parts = KanbanRenderParts { title_lines: Vec::new(), ticket: None, assigned: None, priority: None };
    let mut i: usize = 0;
    assert(all.take(0) =~= Seq::<Seq<char>>::empty());
    assert(views(parts.title_lines@) =~= Seq::<Seq<char>>::empty());
    while i < label.lines.len()
        invariant
            0 <= i <= label.lines.len(),
            all == views(label.lines@),
            parts_view(parts) == kanban_parts_of(all.take(i as int)),
        decreases label.lines.len() - i,
    {
        assert(all.take(i + 1).drop_last() =~= all.take(i as int));
        assert(all.take(i + 1).last() == label.lines@[i as int]@);
        let text = label.lines[i].as_str();
        if is_kanban_metadata_line(text) {
            let pairs = parse_kanban_metadata_pairs(text);
            let ghost pv = pairs_view(pairs@);
            let ghost start = parts_view(parts);
            let mut j: usize = 0;
            assert(pv.take(0) =~= Seq::<(Seq<char>, Seq<char>)>::empty());
            while j < pairs.len()
                invariant
                    0 <= j <= pairs.len(),
                    pv == pairs_view(pairs@),
                    parts_view(parts) == apply_meta(start, pv.take(j as int)),
                decreases pairs.len() - j,
            {
                assert(pv.take(j + 1).drop_last() =~= pv.take(j as int));
                assert(pv.take(j + 1).last() == (pairs@[j as int].0@, pairs@[j as int].1@));
                let key = pairs[j].0.as_str();
                let value = pairs[j].1.clone();
                if str_eq(key, "ticket") {
                    parts.ticket = Some(value);
                } else if str_eq(key, "assigned") {
                    parts.assigned = Some(value);
                } else if str_eq(key, "priority") {
                    parts.priority = Some(value);
                }
                j += 1;
            }
            assert(pv.take(pairs.len() as int) =~= pv);
        } else {
            let ghost before = views(parts.title_lines@);
            parts.title_lines.push(label.lines[i].clone());
            assert(views(parts.title_lines@) =~= before.push(label.lines@[i as int]@));
        }
        i += 1;
    }
    assert(all.take(label.lines.len() as int) =~= all);
    parts
}

/// The border colour of a kanban card by priority (any ASCII case);
/// `medium` and unknown priorities get none.
pub open spec fn priority_color_of(priority: Seq<char>) -> Option<Seq<char>> {
    let p = lower(priority);
    if p == "very high"@ {
        Some("red"@)
    } else if p == "high"@ {
        Some("orange"@)
    } else if p == "low"@ {
        Some("blue"@)
    } else if p == "very low"@ {
        Some("lightblue"@)
    } else {
        None
    }
}

pub fn kanban_priority_color(priority: &str) -> (res: Option<&'static str>)
    ensures
        match res {
            Some(c) => priority_color_of(priority@) == Some(c@),
            None => priority_color_of(priority@) is None,
        },
{
    let p = to_lower(priority);
    let p = p.as_str();
    proof {
        reveal_strlit("medium");
        reveal_strlit("low");
        reveal_strlit("very low");
    }
    assert(p@ == lower(priority@));
    if str_eq(p, "very high") {
        assert(priority_color_of(priority@) == Some("red"@));
        Some("red")
    } else if str_eq(p, "high") {
        Some("orange")
    } else if str_eq(p, "medium") {
        None
    } else if str_eq(p, "low") {
        Some("blue")
    } else if str_eq(p, "very low") {
        Some("lightblue")
    } else {
        None
    }
}

/// The default fill of the `index`-th kanban section; the eleven colours
/// repeat.
pub open spec fn section_fill_of(index: nat) -> Seq<char> {
    let k = index % 11;
    if k == 0 {
        "hsl(80, 100%, 86.2745098039%)"@
    } else if k == 1 {
        "hsl(270, 100%, 86.2745098039%)"@
    } else if k == 2 {
        "hsl(300, 100%, 86.2745098039%)"@
    } else if k == 3 {
        "hsl(330, 100%, 86.2745098039%)"@
    } else if k == 4 {
        "hsl(0, 100%, 86.2745098039%)"@
    } else if k == 5 {
        "hsl(30, 100%, 86.2745098039%)"@
    } else if k == 6 {
        "hsl(90, 100%, 86.2745098039%)"@
    } else if k == 7 {
        "hsl(150, 100%, 86.2745098039%)"@
    } else if k == 8 {
        "hsl(180, 100%, 86.2745098039%)"@
    } else if k == 9 {
        "hsl(210, 100%, 86.2745098039%)"@
    } else {
        "hsl(60, 100%, 83.5294117647%)"@
    }
}

pub fn default_kanban_section_fill(index_zero_based: usize) -> (res: &'static str)
    ensures
        res@ == section_fill_of(index_zero_based as nat),
{
    let k = index_zero_based % 11;
    if k == 0 {
        "hsl(80, 100%, 86.2745098039%)"
    } else if k == 1 {
        "hsl(270, 100%, 86.2745098039%)"
    } else if k == 2 {
        "hsl(300, 100%, 86.2745098039%)"
    } else if k == 3 {
        "hsl(330, 100%, 86.2745098039%)"
    } else if k == 4 {
        "hsl(0, 100%, 86.2745098039%)"
    } else if k == 5 {
        "hsl(30, 100%, 86.2745098039%)"
    } else if k == 6 {
        "hsl(90, 100%, 86.2745098039%)"
    } else if k == 7 {
        "hsl(150, 100%, 86.2745098039%)"
    } else if k == 8 {
        "hsl(180, 100%, 86.2745098039%)"
    } else if k == 9 {
        "hsl(210, 100%, 86.2745098039%)"
    } else {
        "hsl(60, 100%, 83.5294117647%)"
    }
}

/// An attribute-row keyword of an entity: primary, foreign or unique key.
pub open spec fn key_word(s: Seq<char>) -> bool {
    s == "PK"@ || s == "FK"@ || s == "UK"@
}

pub open spec fn key_filter(pieces: Seq<Seq<char>>) -> Seq<Seq<char>>
    decreases pieces.len(),
{
    if pieces.len() == 0 {
        Seq::<Seq<char>>::empty()
    } else {
        let init = key_filter(pieces.drop_last());
        if key_word(pieces.last()) {
            init.push(pieces.last())
        } else {
            init
        }
    }
}

/// The key markers one word of an attribute row stands for: the word
/// upper-cased without surrounding `,` and `;`, if it is a marker, else the
/// markers among its comma-separated pieces (none for an ordinary word).
pub open spec fn token_keys(token: Seq<char>) -> Seq<Seq<char>> {
    let cleaned = upper(trim(token, CharSet::Two(',', ';')));
    if key_word(cleaned) {
        seq![cleaned]
    } else {
        key_filter(split(cleaned, CharSet::One(',')))
    }
}

/// Key markers and remaining words of an attribute row, in order.
pub open spec fn attr_words(ws: Seq<Seq<char>>) -> (Seq<Seq<char>>, Seq<Seq<char>>)
    decreases ws.len(),
{
    if ws.len() == 0 {
        (Seq::<Seq<char>>::empty(), Seq::<Seq<char>>::empty())
    } else {
        let prev = attr_words(ws.drop_last());
        let k = token_keys(ws.last());
        if k.len() > 0 {
            (prev.0 + k, prev.1)
        } else {
            (prev.0, prev.1.push(ws.last()))
        }
    }
}

/// Name, data type, key markers and comment of an attribute row.
pub type ErAttributeView = (Seq<char>, Seq<char>, Seq<Seq<char>>, Option<Seq<char>>);

/// The attribute a trimmed, non-empty row describes: the first word is the
/// data type and the rest the name, or a lone word is the name; rows with
/// only key markers describe none.
pub open spec fn er_attribute_of(row: Seq<char>) -> Option<ErAttributeView> {
    let split_row = er_comment_split(row);
    let kp = attr_words(words(split_row.0));
    let parts = kp.1;
    if parts.len() == 0 {
        None
    } else if parts.len() >= 2 {
        Some((join(parts.skip(1), seq![' ']), parts[0], kp.0, split_row.1))
    } else {
        Some((parts[0], Seq::<char>::empty(), kp.0, split_row.1))
    }
}

/// Title, attributes so far, and whether the `---` divider has been seen,
/// after the entity label lines `rest` that follow the first one.
pub open spec fn er_body(title0: Seq<char>, rest: Seq<Seq<char>>) -> (Seq<char>, Seq<ErAttributeView>, bool)
    decreases rest.len(),
{
    if rest.len() == 0 {
        (title0, Seq::<ErAttributeView>::empty(), false)
    } else {
        let st = er_body(title0, rest.drop_last());
        let line = rest.last();
        let t = trim(line, CharSet::Ws);
        if t == "---"@ {
            (st.0, st.1, true)
        } else if !st.2 {
            if t.len() != 0 {
                (line, st.1, false)
            } else {
                st
            }
        } else if t.len() == 0 {
            st
        } else {
            match er_attribute_of(t) {
                None => st,
                Some(a) => (st.0, st.1.push(a), true),
            }
        }
    }
}

/// An entity label read as a title and attribute rows: the title is the
/// last non-blank line before the `---` divider (the first line if none),
/// rows after it become attributes.
pub open spec fn er_attributes_of(lines: Seq<Seq<char>>) -> (Seq<char>, Seq<ErAttributeView>) {
    if lines.len() == 0 {
        (Seq::<char>::empty(), Seq::<ErAttributeView>::empty())
    } else {
        let st = er_body(lines[0], lines.skip(1));
        (st.0, st.1)
    }
}


/// One attribute row of an entity box.
pub struct ErAttribute {
    pub name: String,
    pub data_type: String,
    pub keys: Vec<String>,
    pub comment: Option<String>,
}

pub open spec fn attr_view(a: ErAttribute) -> ErAttributeView {
    (a.name@, a.data_type@, views(a.keys@), opt_view(a.comment))
}

pub open spec fn attrs_view(v: Seq<ErAttribute>) -> Seq<ErAttributeView> {
    v.map_values(|a: ErAttribute| attr_view(a))
}

fn is_key_word(s: &str) -> (res: bool)
    ensures
        res == key_word(s@),
{
    str_eq(s, "PK") || str_eq(s, "FK") || str_eq(s, "UK")
}

fn token_keys_of(token: &str) -> (res: Vec<String>)
    ensures
        views(res@) == token_keys(token@),
{
    let stripped = trim_str(token, &CharSet::Two(',', ';'));
    let cleaned = to_upper(stripped.as_str());
    if is_key_word(cleaned.as_str()) {
        let ghost cv = cleaned@;
        let mut out: Vec<String> = Vec::new();
        out.push(cleaned);
        assert(views(out@) =~= seq![cv]);
        return out;
    }
    let pieces = split_chars(&to_chars(cleaned.as_str()), &CharSet::One(','));
    let ghost all = views(pieces@);
    let mut out: Vec<String> = Vec::new();
    let mut i: usize = 0;
    assert(all.take(0) =~= Seq::<Seq<char>>::empty());
    while i < pieces.len()
        invariant
            0 <= i <= pieces.len(),
            all == views(pieces@),
            views(out@) == key_filter(all.take(i as int)),
        decreases pieces.len() - i,
    {
        assert(all.take(i + 1).drop_last() =~= all.take(i as int));
        assert(all.take(i + 1).last() == pieces@[i as int]@);
        if is_key_word(pieces[i].as_str()) {
            let ghost before = views(out@);
            out.push(pieces[i].clone());
            assert(views(out@) =~= before.push(pieces@[i as int]@));
        }
        i += 1;
    }
    assert(all.take(pieces.len() as int) =~= all);
    out
}

fn er_attribute(row: &str) -> (res: Option<ErAttribute>)
    ensures
        match res {
            Some(a) => er_attribute_of(row@) == Some(attr_view(a)),
            None => er_attribute_of(row@) is None,
        },
{
    let (attr_text, comment) = split_er_attribute_comment(row);
    let ws = words_of(&to_chars(attr_text.as_str()));
    let ghost wv = views(ws@);
    let mut keys: Vec<String> = Vec::new();
    let mut parts: Vec<String> = Vec::new();
    let mut i: usize = 0;
    assert(wv.take(0) =~= Seq::<Seq<char>>::empty());
    while i < ws.len()
        invariant
            0 <= i <= ws.len(),
            wv == views(ws@),
            (views(keys@), views(parts@)) == attr_words(wv.take(i as int)),
        decreases ws.len() - i,
    {
        assert(wv.take(i + 1).drop_last() =~= wv.take(i as int));
        assert(wv.take(i + 1).last() == ws@[i as int]@);
        let k = token_keys_of(ws[i].as_str());
        if k.len() > 0 {
            let ghost before = views(keys@);
            let mut j: usize = 0;
            while j < k.len()
                invariant
                    0 <= j <= k.len(),
                    views(keys@) == before + views(k@).take(j as int),
                decreases k.len() - j,
            {
                let ghost pre = views(keys@);
                keys.push(k[j].clone());
                assert(views(keys@) =~= pre.push(k@[j as int]@));
                assert(views(k@).take(j + 1) =~= views(k@).take(j as int).push(k@[j as int]@));
                assert(views(keys@) =~= before + views(k@).take(j + 1));
                j += 1;
            }
            assert(views(k@).take(k.len() as int) =~= views(k@));
        } else {
            let ghost before = views(parts@);
            parts.push(ws[i].clone());
            assert(views(parts@) =~= before.push(ws@[i as int]@));
        }
        i += 1;
    }
    assert(wv.take(ws.len() as int) =~= wv);
    if parts.len() == 0 {
        return None;
    }
    let (data_type, name) = if parts.len() >= 2 {
        let mut rest: Vec<String> = Vec::new();
        let mut j: usize = 1;
        while j < parts.len()
            invariant
                1 <= j <= parts.len(),
                views(rest@) == views(parts@).subrange(1, j as int),
            decreases parts.len() - j,
        {
            let ghost pre = views(rest@);
            rest.push(parts[j].clone());
            assert(views(rest@) =~= pre.push(parts@[j as int]@));
            assert(views(rest@) =~= views(parts@).subrange(1, j + 1));
            j += 1;
        }
        assert(views(parts@).subrange(1, parts.len() as int) =~= views(parts@).skip(1));
        proof {
            reveal_strlit(" ");
        }
        assert(" "@ =~= seq![' ']);
        (parts[0].clone(), join_strings(&rest, " "))
    } else {
        (String::new(), parts[0].clone())
    };
    Some(ErAttribute { name, data_type, keys, comment })
}

/// Reads an entity label: its title line and its attribute rows.
pub fn parse_er_attributes(lines: &[String]) -> (res: (String, Vec<ErAttribute>))
    ensures
        (res.0@, attrs_view(res.1@)) == er_attributes_of(views(lines@)),
{
    let ghost all = views(lines@);
    let ghost rest = all.skip(1);
    let mut title = if lines.len() == 0 {
        String::new()
    } else {
        lines[0].clone()
    };
    let ghost title0 = title@;
    let mut attrs: Vec<ErAttribute> = Vec::new();
    let mut in_body = false;
    if lines.len() == 0 {
        assert(attrs_view(attrs@) =~= Seq::<ErAttributeView>::empty());
        return (title, attrs);
    }
    let mut i: usize = 1;
    assert(rest.take(0) =~= Seq::<Seq<char>>::empty());
    assert(attrs_view(attrs@) =~= Seq::<ErAttributeView>::empty());
    while i < lines.len()
        invariant
            1 <= i <= lines.len(),
            all == views(lines@),
            rest == all.skip(1),
            title0 == all[0],
            (title@, attrs_view(attrs@), in_body) == er_body(title0, rest.take(i - 1)),
        decreases lines.len() - i,
    {
        assert(rest.take(i as int).drop_last() =~= rest.take(i - 1));
        assert(rest.take(i as int).last() == lines@[i as int]@);
        let line = lines[i].as_str();
        i += 1;
        if is_divider_line(line) {
            in_body = true;
            continue;
        }
        let t = trim_str(line, &CharSet::Ws);
        if !in_body {
            if !t.as_str().is_empty() {
                title = line.to_owned();
            }
            continue;
        }
        if t.as_str().is_empty() {
            continue;
        }
        match er_attribute(t.as_str()) {
            Some(a) => {
                let ghost before = attrs_view(attrs@);
                let ghost av = attr_view(a);
                attrs.push(a);
                assert(attrs_view(attrs@) =~= before.push(av));
            },
            None => {},
        }
    }
    assert(rest.take(lines.len() - 1) =~= rest);
    (title, attrs)
}

/// The UTF-8 length of `s`, as `str::len` reports it.
pub open spec fn byte_len(s: Seq<char>) -> usize {
    encode_utf8(s).len() as usize
}

/// Words packed greedily into lines: a word joins the current line, after a
/// space, while the line stays within `max` bytes; otherwise it starts a new
/// line.
pub open spec fn wrap_words(ws: Seq<Seq<char>>, max: usize) -> Seq<Seq<char>>
    decreases ws.len(),
{
    if ws.len() == 0 {
        Seq::<Seq<char>>::empty()
    } else {
        let init = wrap_words(ws.drop_last(), max);
        let w = ws.last();
        if init.len() > 0 && byte_len(init.last()) + 1 + byte_len(w) <= max {
            init.update(init.len() - 1, init.last().push(' ') + w)
        } else {
            init.push(w)
        }
    }
}

/// `text` as one line if it fits in `max` bytes, else its words wrapped;
/// text that has no words stays one line.
pub open spec fn wrapped_of(text: Seq<char>, max: usize) -> Seq<Seq<char>> {
    if byte_len(text) <= max {
        seq![text]
    } else {
        let l = wrap_words(words(text), max);
        if l.len() == 0 {
            seq![text]
        } else {
            l
        }
    }
}

/// Wraps `text` at word boundaries into lines of at most `max_chars` bytes;
/// a word longer than that gets a line of its own and is never split.
pub fn wrap_by_chars(text: &str, max_chars: usize) -> (res: Vec<String>)
    ensures
        views(res@) == wrapped_of(text@, max_chars),
        forall|j: int|
            0 <= j < res@.len() ==> {
                ||| encode_utf8((#[trigger] res@[j])@).len() <= max_chars
                ||| words(text@).contains(res@[j]@)
                ||| (words(text@).len() == 0 && views(res@) == seq![text@])
            },
        encode_utf8(text@).len() <= max_chars ==> views(res@) == seq![text@],
        forall|i: int|
            0 <= i < res@.len() - 1 ==> encode_utf8((#[trigger] res@[i])@).len() + 1 + encode_utf8(
                first_word(res@[i + 1]@),
            ).len() > max_chars,
{
    let bytes = text.as_bytes();
    proof {
        assert(bytes@.len() == bytes.len());
        lemma_wrapped_lines_fit(text@, max_chars);
        lemma_wrapped_lines_greedy(text@, max_chars);
    }
    let res = wrap_by_chars_lines(text, max_chars);
    proof {
        let r = views(res@);
        assert forall|j: int| 0 <= j < res@.len() implies #[trigger] res@[j]@ == r[j] by {}
    }
    res
}

/// The lines of `wrap_by_chars`, built word by word.
fn wrap_by_chars_lines(text: &str, max_chars: usize) -> (res: Vec<String>)
    ensures
        views(res@) == wrapped_of(text@, max_chars),
{
    if text.len() <= max_chars {
        let mut one: Vec<String> = Vec::new();
        one.push(text.to_owned());
        assert(views(one@) =~= seq![text@]);
        return one;
    }
    let ws = words_of(&to_chars(text));
    let ghost wv = views(ws@);
    let mut done: Vec<String> = Vec::new();
    let mut cur = String::new();
    let mut has_cur = false;
    let mut i: usize = 0;
    assert(wv.take(0) =~= Seq::<Seq<char>>::empty());
    assert(views(done@) =~= Seq::<Seq<char>>::empty());
    while i < ws.len()
        invariant
            0 <= i <= ws.len(),
            wv == views(ws@),
            has_cur ==> views(done@).push(cur@) == wrap_words(wv.take(i as int), max_chars),
            !has_cur ==> views(done@) == wrap_words(wv.take(i as int), max_chars),
            !has_cur ==> done@.len() == 0,
        decreases ws.len() - i,
    {
        assert(wv.take(i + 1).drop_last() =~= wv.take(i as int));
        assert(wv.take(i + 1).last() == ws@[i as int]@);
        let word = ws[i].as_str();
        let word_len = word.len();
        if has_cur {
            let cur_len = cur.as_str().len();
            if cur_len < max_chars && word_len <= max_chars - cur_len - 1 {
                let ghost before = views(done@).push(cur@);
                push_char(&mut cur, ' ');
                push_str(&mut cur, word);
                assert(views(done@).push(cur@) =~= before.update(
                    before.len() - 1,
                    before.last().push(' ') + word@,
                ));
            } else {
                let ghost before = views(done@).push(cur@);
                let line = cur;
                done.push(line);
                cur = word.to_owned();
                assert(views(done@).push(cur@) =~= before.push(word@));
            }
        } else {
            cur = word.to_owned();
            has_cur = true;
            assert(views(done@).push(cur@) =~= seq![word@]);
        }
        i += 1;
    }
    assert(wv.take(ws.len() as int) =~= wv);
    if has_cur {
        done.push(cur);
        done
    } else {
        let mut one: Vec<String> = Vec::new();
        one.push(text.to_owned());
        assert(views(one@) =~= seq![text@]);
        one
    }
}

/// Wrapping only regroups words: the lines, joined with spaces, are the
/// words joined with spaces.
pub proof fn lemma_wrap_words_keeps_words(ws: Seq<Seq<char>>, max: usize)
    ensures
        wrap_words(ws, max).len() == 0 <==> ws.len() == 0,
        join(wrap_words(ws, max), seq![' ']) == join(ws, seq![' ']),
    decreases ws.len(),
{
    if ws.len() > 0 {
        lemma_wrap_words_keeps_words(ws.drop_last(), max);
        let init = wrap_words(ws.drop_last(), max);
        let w = ws.last();
        if init.len() > 0 && byte_len(init.last()) + 1 + byte_len(w) <= max {
            lemma_join_extend_last(init, seq![' '], seq![' '] + w);
            assert(init.last().push(' ') + w =~= init.last() + (seq![' '] + w));
            assert(join(ws, seq![' ']) =~= join(ws.drop_last(), seq![' ']) + seq![' '] + w);
        } else {
            let r = init.push(w);
            assert(r.drop_last() =~= init);
            if init.len() == 0 {
                assert(ws.drop_last().len() == 0);
            }
        }
    }
}

pub(crate) proof fn lemma_encode_utf8_concat(a: Seq<char>, b: Seq<char>)
    ensures
        encode_utf8(a + b) == encode_utf8(a) + encode_utf8(b),
    decreases a.len(),
{
    if a.len() == 0 {
        assert(a + b =~= b);
        assert(encode_utf8(a) + encode_utf8(b) =~= encode_utf8(b));
    } else {
        lemma_encode_utf8_concat(a.drop_first(), b);
        assert((a + b).drop_first() =~= a.drop_first() + b);
        assert((a + b)[0] == a[0]);
        assert(encode_utf8(a + b) =~= encode_utf8(a) + encode_utf8(b));
    }
}

/// Every wrapped line fits in `max` bytes, unless it is a single word that
/// does not fit by itself: a line is never longer than it must be.
pub proof fn lemma_wrap_words_fit(ws: Seq<Seq<char>>, max: usize)
    requires
        forall|i: int| 0 <= i < ws.len() ==> encode_utf8(#[trigger] ws[i]).len() <= usize::MAX,
    ensures
        forall|j: int|
            0 <= j < wrap_words(ws, max).len() ==> encode_utf8(#[trigger] wrap_words(ws, max)[j]).len() <= max
                || ws.contains(wrap_words(ws, max)[j]),
        forall|j: int|
            0 <= j < wrap_words(ws, max).len() ==> encode_utf8(#[trigger] wrap_words(ws, max)[j]).len() <= usize::MAX,
    decreases ws.len(),
{
    if ws.len() > 0 {
        let pre = ws.drop_last();
        assert forall|i: int| 0 <= i < pre.len() implies encode_utf8(#[trigger] pre[i]).len() <= usize::MAX by {
            assert(pre[i] == ws[i]);
        }
        lemma_wrap_words_fit(pre, max);
        let init = wrap_words(pre, max);
        let w = ws.last();
        assert(encode_utf8(ws[ws.len() - 1]).len() <= usize::MAX);
        assert forall|k: int| 0 <= k < pre.len() implies ws.contains(#[trigger] pre[k]) by {
            assert(ws[k] == pre[k]);
        }
        assert(ws.contains(w)) by {
            assert(ws[ws.len() - 1] == w);
        }
        if init.len() > 0 && byte_len(init.last()) + 1 + byte_len(w) <= max {
            let last = init.last();
            assert(encode_utf8(init[init.len() - 1]).len() <= usize::MAX);
            lemma_encode_utf8_concat(last, seq![' ']);
            lemma_encode_utf8_concat(last.push(' '), w);
            assert(last.push(' ') =~= last + seq![' ']);
            let sp = seq![' '];
            assert(sp.drop_first() =~= Seq::<char>::empty());
            assert(encode_utf8(sp.drop_first()).len() == 0);
            assert(sp[0] as u32 == 32);
            assert(encode_utf8(sp).len() == 1);
            let r = init.update(init.len() - 1, last.push(' ') + w);
            assert(encode_utf8(r[r.len() - 1]).len() <= max);
            assert forall|j: int| 0 <= j < r.len() implies encode_utf8(#[trigger] r[j]).len() <= max
                || ws.contains(r[j]) by {
                if j < r.len() - 1 {
                    assert(r[j] == init[j]);
                    if !(encode_utf8(init[j]).len() <= max) {
                        assert(pre.contains(init[j]));
                        let k = choose|k: int| 0 <= k < pre.len() && pre[k] == init[j];
                        assert(ws.contains(pre[k]));
                    }
                }
            }
        } else {
            let r = init.push(w);
            assert forall|j: int| 0 <= j < r.len() implies encode_utf8(#[trigger] r[j]).len() <= max
                || ws.contains(r[j]) by {
                if j < r.len() - 1 {
                    assert(r[j] == init[j]);
                    if !(encode_utf8(init[j]).len() <= max) {
                        assert(pre.contains(init[j]));
                        let k = choose|k: int| 0 <= k < pre.len() && pre[k] == init[j];
                        assert(ws.contains(pre[k]));
                    }
                }
            }
            assert forall|j: int| 0 <= j < r.len() implies encode_utf8(#[trigger] r[j]).len() <= usize::MAX by {
                if j < r.len() - 1 {
                    assert(r[j] == init[j]);
                }
            }
        }
    }
}

proof fn lemma_suffix_encode_len(s: Seq<char>, k: int)
    requires
        0 <= k <= s.len(),
    ensures
        encode_utf8(s.subrange(k, s.len() as int)).len() <= encode_utf8(s).len(),
{
    lemma_encode_utf8_concat(s.subrange(0, k), s.subrange(k, s.len() as int));
    assert(s.subrange(0, k) + s.subrange(k, s.len() as int) =~= s);
}

/// Each word of `s` takes no more bytes than `s`; the last word of a text
/// that ends in a word is its suffix.
proof fn lemma_words_encode_len(s: Seq<char>)
    ensures
        forall|i: int| 0 <= i < words(s).len() ==> encode_utf8(#[trigger] words(s)[i]).len() <= encode_utf8(s).len(),
        s.len() > 0 && !is_ws(s.last()) ==> {
            &&& words(s).len() > 0
            &&& words(s).last().len() <= s.len()
            &&& words(s).last() == s.subrange(s.len() - words(s).last().len(), s.len() as int)
        },
    decreases s.len(),
{
    if s.len() > 0 {
        let t = s.drop_last();
        let c = s.last();
        lemma_words_encode_len(t);
        lemma_encode_utf8_concat(t, seq![c]);
        assert(t + seq![c] =~= s);
        let init = words(t);
        if is_ws(c) {
        } else if s.len() >= 2 && !is_ws(s[s.len() - 2]) {
            assert(t.last() == s[s.len() - 2]);
            let nl = init.last().push(c);
            assert(nl =~= s.subrange(s.len() - nl.len(), s.len() as int));
            lemma_suffix_encode_len(s, s.len() - nl.len());
            let r = init.update(init.len() - 1, nl);
            assert forall|i: int| 0 <= i < r.len() implies encode_utf8(#[trigger] r[i]).len() <= encode_utf8(s).len() by {
                if i < r.len() - 1 {
                    assert(r[i] == init[i]);
                }
            }
        } else {
            let nl = seq![c];
            assert(nl =~= s.subrange(s.len() - 1, s.len() as int));
            lemma_suffix_encode_len(s, s.len() - 1);
            let r = init.push(nl);
            assert forall|i: int| 0 <= i < r.len() implies encode_utf8(#[trigger] r[i]).len() <= encode_utf8(s).len() by {
                if i < r.len() - 1 {
                    assert(r[i] == init[i]);
                }
            }
        }
    }
}

/// Every line that `wrap_by_chars` gives fits in `max` bytes, unless it is a
/// word of the text too long to fit by itself, or the text has no words and
/// stays whole.
pub proof fn lemma_wrapped_lines_fit(text: Seq<char>, max: usize)
    requires
        encode_utf8(text).len() <= usize::MAX,
    ensures
        forall|j: int|
            0 <= j < wrapped_of(text, max).len() ==> {
                ||| encode_utf8(#[trigger] wrapped_of(text, max)[j]).len() <= max
                ||| words(text).contains(wrapped_of(text, max)[j])
                ||| (words(text).len() == 0 && wrapped_of(text, max) == seq![text])
            },
{
    lemma_words_encode_len(text);
    let ws = words(text);
    if byte_len(text) > max {
        lemma_wrap_words_fit(ws, max);
        lemma_wrap_words_keeps_words(ws, max);
    }
}

/// The text of a line up to its first space: the first word of a wrapped
/// line.
pub open spec fn first_word(s: Seq<char>) -> Seq<char>
    decreases s.len(),
{
    if s.len() == 0 || s[0] == ' ' {
        Seq::<char>::empty()
    } else {
        seq![s[0]] + first_word(s.drop_first())
    }
}

pub(crate) proof fn lemma_first_word_whole(a: Seq<char>)
    requires
        forall|i: int| 0 <= i < a.len() ==> a[i] != ' ',
    ensures
        first_word(a) == a,
    decreases a.len(),
{
    if a.len() > 0 {
        assert(a[0] != ' ');
        lemma_first_word_whole(a.drop_first());
        assert(seq![a[0]] + a.drop_first() =~= a);
    }
}

pub(crate) proof fn lemma_first_word_concat(a: Seq<char>, b: Seq<char>)
    requires
        b.len() > 0,
        b[0] == ' ',
    ensures
        first_word(a + b) == first_word(a),
    decreases a.len(),
{
    if a.len() == 0 {
        assert(a + b =~= b);
    } else {
        assert((a + b)[0] == a[0]);
        assert((a + b).drop_first() =~= a.drop_first() + b);
        lemma_first_word_concat(a.drop_first(), b);
    }
}

pub(crate) proof fn lemma_words_no_space(s: Seq<char>)
    ensures
        forall|i: int, j: int|
            0 <= i < words(s).len() && 0 <= j < words(s)[i].len() ==> #[trigger] words(s)[i][j] != ' ',
    decreases s.len(),
{
    if s.len() > 0 {
        lemma_words_no_space(s.drop_last());
        let init = words(s.drop_last());
        let c = s.last();
        if is_ws(c) {
        } else if s.len() >= 2 && !is_ws(s[s.len() - 2]) {
            lemma_words_encode_len(s.drop_last());
            assert(s.drop_last().last() == s[s.len() - 2]);
            let r = init.update(init.len() - 1, init.last().push(c));
            assert forall|i: int, j: int| 0 <= i < r.len() && 0 <= j < r[i].len() implies #[trigger] r[i][j] != ' ' by {
                if i < r.len() - 1 {
                    assert(r[i] == init[i]);
                } else if j < init.last().len() {
                    assert(r[i][j] == init[init.len() - 1][j]);
                }
            }
        } else {
            let r = init.push(seq![c]);
            assert forall|i: int, j: int| 0 <= i < r.len() && 0 <= j < r[i].len() implies #[trigger] r[i][j] != ' ' by {
                if i < r.len() - 1 {
                    assert(r[i] == init[i]);
                }
            }
        }
    }
}

/// Greedy packing: the first word of each line could not have joined the
/// line before it, which would then have run past `max` bytes.
pub proof fn lemma_wrap_words_greedy(ws: Seq<Seq<char>>, max: usize)
    requires
        forall|i: int| 0 <= i < ws.len() ==> encode_utf8(#[trigger] ws[i]).len() <= usize::MAX,
        forall|i: int, j: int| 0 <= i < ws.len() && 0 <= j < ws[i].len() ==> #[trigger] ws[i][j] != ' ',
    ensures
        forall|i: int|
            0 <= i < wrap_words(ws, max).len() - 1 ==> encode_utf8(#[trigger] wrap_words(ws, max)[i]).len() + 1
                + encode_utf8(first_word(wrap_words(ws, max)[i + 1])).len() > max,
    decreases ws.len(),
{
    if ws.len() > 0 {
        let pre = ws.drop_last();
        assert forall|i: int| 0 <= i < pre.len() implies encode_utf8(#[trigger] pre[i]).len() <= usize::MAX by {
            assert(pre[i] == ws[i]);
        }
        assert forall|i: int, j: int| 0 <= i < pre.len() && 0 <= j < pre[i].len() implies #[trigger] pre[i][j] != ' ' by {
            assert(pre[i] == ws[i]);
        }
        lemma_wrap_words_greedy(pre, max);
        lemma_wrap_words_fit(pre, max);
        let init = wrap_words(pre, max);
        let w = ws.last();
        assert(w == ws[ws.len() - 1]);
        assert(encode_utf8(w).len() <= usize::MAX);
        let l = wrap_words(ws, max);
        if init.len() > 0 && byte_len(init.last()) + 1 + byte_len(w) <= max {
            let m = init.len() - 1;
            let last = init.last();
            assert(last.push(' ') + w =~= last + (seq![' '] + w));
            lemma_first_word_concat(last, seq![' '] + w);
            assert forall|i: int| 0 <= i < l.len() - 1 implies encode_utf8(#[trigger] l[i]).len() + 1
                + encode_utf8(first_word(l[i + 1])).len() > max by {
                assert(l[i] == init[i]);
                if i + 1 < m {
                    assert(l[i + 1] == init[i + 1]);
                } else {
                    assert(l[i + 1] == last.push(' ') + w);
                    assert(init[i + 1] == last);
                }
            }
        } else {
            assert forall|j: int| 0 <= j < w.len() implies w[j] != ' ' by {
                assert(ws[ws.len() - 1][j] != ' ');
            }
            lemma_first_word_whole(w);
            assert forall|i: int| 0 <= i < l.len() - 1 implies encode_utf8(#[trigger] l[i]).len() + 1
                + encode_utf8(first_word(l[i + 1])).len() > max by {
                assert(l[i] == init[i]);
                if i + 1 < init.len() {
                    assert(l[i + 1] == init[i + 1]);
                } else {
                    assert(l[i + 1] == w);
                    assert(encode_utf8(init[init.len() - 1]).len() <= usize::MAX);
                }
            }
        }
    }
}

/// Text that fits in `max` bytes stays one line, and every break
/// `wrap_by_chars` makes is needed: the first word of each line would not
/// have fitted on the line before.
pub proof fn lemma_wrapped_lines_greedy(text: Seq<char>, max: usize)
    requires
        encode_utf8(text).len() <= usize::MAX,
    ensures
        encode_utf8(text).len() <= max ==> wrapped_of(text, max) == seq![text],
        forall|i: int|
            0 <= i < wrapped_of(text, max).len() - 1 ==> encode_utf8(#[trigger] wrapped_of(text, max)[i]).len() + 1
                + encode_utf8(first_word(wrapped_of(text, max)[i + 1])).len() > max,
{
    lemma_words_encode_len(text);
    lemma_words_no_space(text);
    let ws = words(text);
    if byte_len(text) > max && ws.len() > 0 {
        lemma_wrap_words_keeps_words(ws, max);
        lemma_wrap_words_greedy(ws, max);
    }
}

/// The value of the last pair in `pairs` whose key is `key`.
pub open spec fn last_value(pairs: Seq<(Seq<char>, Seq<char>)>, key: Seq<char>) -> Option<Seq<char>>
    decreases pairs.len(),
{
    if pairs.len() == 0 {
        None
    } else if pairs.last().0 == key {
        Some(pairs.last().1)
    } else {
        last_value(pairs.drop_last(), key)
    }
}

/// The metadata pairs of all the metadata lines of a card, in line order.
pub open spec fn card_meta_pairs(lines: Seq<Seq<char>>) -> Seq<(Seq<char>, Seq<char>)>
    decreases lines.len(),
{
    if lines.len() == 0 {
        Seq::<(Seq<char>, Seq<char>)>::empty()
    } else if kanban_meta_line(lines.last()) {
        card_meta_pairs(lines.drop_last()) + kanban_pairs_of(lines.last())
    } else {
        card_meta_pairs(lines.drop_last())
    }
}

/// `later` where it has a value, else `earlier`.
pub open spec fn or_latest(earlier: Option<Seq<char>>, later: Option<Seq<char>>) -> Option<Seq<char>> {
    if later is Some {
        later
    } else {
        earlier
    }
}

proof fn lemma_last_value_concat(p: Seq<(Seq<char>, Seq<char>)>, q: Seq<(Seq<char>, Seq<char>)>, key: Seq<char>)
    ensures
        last_value(p + q, key) == or_latest(last_value(p, key), last_value(q, key)),
    decreases q.len(),
{
    if q.len() == 0 {
        assert(p + q =~= p);
    } else {
        lemma_last_value_concat(p, q.drop_last(), key);
        assert((p + q).drop_last() =~= p + q.drop_last());
        assert((p + q).last() == q.last());
    }
}

proof fn lemma_apply_meta_latest(st: KanbanView, pairs: Seq<(Seq<char>, Seq<char>)>)
    ensures
        apply_meta(st, pairs) == (
            st.0,
            or_latest(st.1, last_value(pairs, "ticket"@)),
            or_latest(st.2, last_value(pairs, "assigned"@)),
            or_latest(st.3, last_value(pairs, "priority"@)),
        ),
    decreases pairs.len(),
{
    reveal_strlit("ticket");
    reveal_strlit("assigned");
    reveal_strlit("priority");
    assert("ticket"@ != "assigned"@ && "ticket"@ != "priority"@ && "assigned"@ != "priority"@) by {
        assert("ticket"@[0] != "assigned"@[0]);
        assert("ticket"@[0] != "priority"@[0]);
        assert("assigned"@[0] != "priority"@[0]);
    }
    if pairs.len() > 0 {
        let pre = pairs.drop_last();
        lemma_apply_meta_latest(st, pre);
        let s = apply_meta(st, pre);
        let (key, value) = pairs.last();
        if key == "ticket"@ {
            assert(last_value(pairs, "ticket"@) == Some(value));
            assert(last_value(pairs, "assigned"@) == last_value(pre, "assigned"@));
            assert(last_value(pairs, "priority"@) == last_value(pre, "priority"@));
        } else if key == "assigned"@ {
            assert(last_value(pairs, "ticket"@) == last_value(pre, "ticket"@));
            assert(last_value(pairs, "priority"@) == last_value(pre, "priority"@));
        } else if key == "priority"@ {
            assert(last_value(pairs, "ticket"@) == last_value(pre, "ticket"@));
            assert(last_value(pairs, "assigned"@) == last_value(pre, "assigned"@));
        }
    }
}

/// A kanban card's parts, read directly: the title lines are the lines that
/// are not metadata lines, in order, and the ticket, assignee and priority
/// are the values of the last `ticket`, `assigned` and `priority` pairs on
/// the metadata lines, `None` when there is none.
pub proof fn lemma_kanban_parts_filter_last(lines: Seq<Seq<char>>)
    ensures
        kanban_parts_of(lines) == (
            lines.filter(|l: Seq<char>| !kanban_meta_line(l)),
            last_value(card_meta_pairs(lines), "ticket"@),
            last_value(card_meta_pairs(lines), "assigned"@),
            last_value(card_meta_pairs(lines), "priority"@),
        ),
    decreases lines.len(),
{
    if lines.len() > 0 {
        let pre = lines.drop_last();
        lemma_kanban_parts_filter_last(pre);
        let line = lines.last();
        let keep = |l: Seq<char>| !kanban_meta_line(l);
        reveal(Seq::filter);
        assert(lines.filter(keep) == if keep(line) { pre.filter(keep).push(line) } else { pre.filter(keep) });
        if kanban_meta_line(line) {
            let pairs = kanban_pairs_of(line);
            lemma_apply_meta_latest(kanban_parts_of(pre), pairs);
            lemma_last_value_concat(card_meta_pairs(pre), pairs, "ticket"@);
            lemma_last_value_concat(card_meta_pairs(pre), pairs, "assigned"@);
            lemma_last_value_concat(card_meta_pairs(pre), pairs, "priority"@);
        }
    }
}

proof fn lemma_lower_idempotent(s: Seq<char>)
    ensures
        lower(lower(s)) == lower(s),
{
    assert(lower(lower(s)) =~= lower(s));
}

/// Metadata keys are matched without regard to ASCII case: every key of a
/// metadata line's pairs is lower-case, so `Ticket:` gives the ticket as
/// `ticket:` does.
pub proof fn lemma_kanban_keys_lower(input: Seq<char>)
    ensures
        forall|i: int| 0 <= i < kanban_pairs_of(input).len() ==> (#[trigger] kanban_pairs_of(input)[i]).0 == lower(
            kanban_pairs_of(input)[i].0,
        ),
{
    lemma_meta_pairs_keys_lower(split(input, CharSet::Two(',', '\n')));
}

proof fn lemma_meta_pairs_keys_lower(pieces: Seq<Seq<char>>)
    ensures
        forall|i: int| 0 <= i < meta_pairs(pieces).len() ==> (#[trigger] meta_pairs(pieces)[i]).0 == lower(
            meta_pairs(pieces)[i].0,
        ),
    decreases pieces.len(),
{
    if pieces.len() > 0 {
        lemma_meta_pairs_keys_lower(pieces.drop_last());
        let init = meta_pairs(pieces.drop_last());
        let piece = pieces.last();
        let k = index_of(piece, ':');
        if k >= 0 {
            lemma_lower_idempotent(meta_strip(piece.take(k)));
        }
        let r = meta_pairs(pieces);
        assert forall|i: int| 0 <= i < r.len() implies (#[trigger] r[i]).0 == lower(r[i].0) by {
            if i < init.len() {
                assert(r[i] == init[i]);
            }
        }
    }
}

} // verus!
