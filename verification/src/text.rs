//! Character-level building blocks shared by the font, CSS and XML helpers:
//! a sequence model of the `str` operations the renderer relies on (trim,
//! split, ASCII case folding, join, decimal formatting) and executable
//! functions proved against it.
use vstd::prelude::*;

verus! {

/// Unicode `White_Space` (what `char::is_whitespace` tests).
pub open spec fn is_ws(c: char) -> bool {
    ||| ('\u{9}' <= c && c <= '\u{d}')
    ||| c == ' '
    ||| c == '\u{85}'
    ||| c == '\u{a0}'
    ||| c == '\u{1680}'
    ||| ('\u{2000}' <= c && c <= '\u{200a}')
    ||| c == '\u{2028}'
    ||| c == '\u{2029}'
    ||| c == '\u{202f}'
    ||| c == '\u{205f}'
    ||| c == '\u{3000}'
}

pub fn char_is_ws(c: char) -> (res: bool)
    ensures
        res == is_ws(c),
{
    ('\u{9}' <= c && c <= '\u{d}') || c == ' ' || c == '\u{85}' || c == '\u{a0}' || c
        == '\u{1680}' || ('\u{2000}' <= c && c <= '\u{200a}') || c == '\u{2028}' || c
        == '\u{2029}' || c == '\u{202f}' || c == '\u{205f}' || c == '\u{3000}'
}

/// A set of characters, as `str::trim_matches` and `str::split` take them.
pub enum CharSet {
    /// Unicode white space.
    Ws,
    /// One character.
    One(char),
    /// Either of two characters.
    Two(char, char),
}

pub open spec fn in_set(p: CharSet, c: char) -> bool {
    match p {
        CharSet::Ws => is_ws(c),
        CharSet::One(a) => c == a,
        CharSet::Two(a, b) => c == a || c == b,
    }
}

pub fn char_in_set(p: &CharSet, c: char) -> (res: bool)
    ensures
        res == in_set(*p, c),
{
    match p {
        CharSet::Ws => char_is_ws(c),
        CharSet::One(a) => c == *a,
        CharSet::Two(a, b) => c == *a || c == *b,
    }
}

/// `s` without its leading characters from `p`.
pub open spec fn trim_start(s: Seq<char>, p: CharSet) -> Seq<char>
    decreases s.len(),
{
    if s.len() > 0 && in_set(p, s[0]) {
        trim_start(s.drop_first(), p)
    } else {
        s
    }
}

/// `s` without its trailing characters from `p`.
pub open spec fn trim_end(s: Seq<char>, p: CharSet) -> Seq<char>
    decreases s.len(),
{
    if s.len() > 0 && in_set(p, s.last()) {
        trim_end(s.drop_last(), p)
    } else {
        s
    }
}

/// `s` without leading and trailing characters from `p`
/// (`str::trim` for white space, `str::trim_matches` otherwise).
pub open spec fn trim(s: Seq<char>, p: CharSet) -> Seq<char> {
    trim_end(trim_start(s, p), p)
}

pub open spec fn ascii_lower(c: char) -> char {
    if 'A' <= c && c <= 'Z' {
        ((c as u32) + 32) as char
    } else {
        c
    }
}

pub open spec fn ascii_upper(c: char) -> char {
    if 'a' <= c && c <= 'z' {
        ((c as u32) - 32) as char
    } else {
        c
    }
}

/// `str::to_ascii_lowercase`.
pub open spec fn lower(s: Seq<char>) -> Seq<char> {
    Seq::new(s.len(), |i: int| ascii_lower(s[i]))
}

/// `str::to_ascii_uppercase`.
pub open spec fn upper(s: Seq<char>) -> Seq<char> {
    Seq::new(s.len(), |i: int| ascii_upper(s[i]))
}

/// The pieces of `s` between characters of `p`, empty pieces included
/// (`str::split`); splitting the empty string gives one empty piece.
pub open spec fn split(s: Seq<char>, p: CharSet) -> Seq<Seq<char>>
    decreases s.len(),
{
    if s.len() == 0 {
        seq![Seq::<char>::empty()]
    } else {
        let init = split(s.drop_last(), p);
        if in_set(p, s.last()) {
            init.push(Seq::<char>::empty())
        } else {
            init.update(init.len() - 1, init.last().push(s.last()))
        }
    }
}

/// The maximal runs of non-white-space characters of `s`
/// (`str::split_whitespace`).
pub open spec fn words(s: Seq<char>) -> Seq<Seq<char>>
    decreases s.len(),
{
    if s.len() == 0 {
        Seq::<Seq<char>>::empty()
    } else {
        let init = words(s.drop_last());
        if is_ws(s.last()) {
            init
        } else if s.len() >= 2 && !is_ws(s[s.len() - 2]) {
            init.update(init.len() - 1, init.last().push(s.last()))
        } else {
            init.push(seq![s.last()])
        }
    }
}

/// The pieces joined with `sep` between them (`[T]::join`).
pub open spec fn join(parts: Seq<Seq<char>>, sep: Seq<char>) -> Seq<char>
    decreases parts.len(),
{
    if parts.len() == 0 {
        Seq::<char>::empty()
    } else if parts.len() == 1 {
        parts[0]
    } else {
        join(parts.drop_last(), sep) + sep + parts.last()
    }
}

/// Extending the last piece extends the joined text by the same amount.
pub proof fn lemma_join_extend_last(s: Seq<Seq<char>>, sep: Seq<char>, y: Seq<char>)
    requires
        s.len() > 0,
    ensures
        join(s.update(s.len() - 1, s.last() + y), sep) == join(s, sep) + y,
{
    let t = s.update(s.len() - 1, s.last() + y);
    if s.len() == 1 {
        assert(t[0] == s[0] + y);
    } else {
        assert(t.drop_last() =~= s.drop_last());
        assert(join(s, sep) + y =~= join(s.drop_last(), sep) + sep + (s.last() + y));
    }
}

/// `t` occurs in `s` at index `i`.
pub open spec fn occurs_at(s: Seq<char>, t: Seq<char>, i: int) -> bool {
    0 <= i && i + t.len() <= s.len() && s.subrange(i, i + t.len()) == t
}

/// `str::contains` with a string pattern.
pub open spec fn contains_str(s: Seq<char>, t: Seq<char>) -> bool {
    exists|i: int| occurs_at(s, t, i)
}

pub open spec fn digit_char(d: nat) -> char {
    ((d + 48) as u32) as char
}

/// The decimal digits of `n` (`Display` for unsigned integers).
pub open spec fn dec(n: nat) -> Seq<char>
    decreases n,
{
    if n < 10 {
        seq![digit_char(n)]
    } else {
        dec(n / 10).push(digit_char(n % 10))
    }
}

/// Appends `c` to `s` (`String::push`).
#[verifier::external_body]
pub fn push_char(s: &mut String, c: char)
    ensures
        final(s)@ == old(s)@.push(c),
{
    s.push(c);
}

/// Appends `t` to `s`, as `String::push_str` does.
pub fn push_str(s: &mut String, t: &str)
    ensures
        final(s)@ == old(s)@ + t@,
{
    s.append(t);
}

/// The characters of `s`, in order.
pub fn to_chars(s: &str) -> (res: Vec<char>)
    ensures
        res@ == s@,
{
    let mut out: Vec<char> = Vec::new();
    for c in it: s.chars()
        invariant
            out@ == it.seq().take(it.index() as int),
            it.seq() == s@,
    {
        out.push(c);
    }
    out
}

/// A `String` holding exactly the characters `v[lo..hi]`.
pub fn string_of(v: &Vec<char>, lo: usize, hi: usize) -> (res: String)
    requires
        lo <= hi <= v.len(),
    ensures
        res@ == v@.subrange(lo as int, hi as int),
{
    let mut out = String::new();
    let mut i: usize = lo;
    while i < hi
        invariant
            lo <= i <= hi <= v.len(),
            out@ == v@.subrange(lo as int, i as int),
        decreases hi - i,
    {
        push_char(&mut out, v[i]);
        i += 1;
    }
    out
}

/// Index of the first character of `v[lo..hi]` outside `p`, scanning forward.
pub fn skip_start(v: &Vec<char>, lo: usize, hi: usize, p: &CharSet) -> (res: usize)
    requires
        lo <= hi <= v.len(),
    ensures
        lo <= res <= hi,
        v@.subrange(res as int, hi as int) == trim_start(v@.subrange(lo as int, hi as int), *p),
{
    let mut i: usize = lo;
    while i < hi && char_in_set(p, v[i])
        invariant
            lo <= i <= hi <= v.len(),
            trim_start(v@.subrange(i as int, hi as int), *p) == trim_start(
                v@.subrange(lo as int, hi as int),
                *p,
            ),
        decreases hi - i,
    {
        assert(v@.subrange(i as int, hi as int).drop_first() =~= v@.subrange(
            i + 1,
            hi as int,
        ));
        i += 1;
    }
    if i < hi {
    } else {
        assert(v@.subrange(i as int, hi as int).len() == 0);
    }
    i
}

/// End of `v[lo..hi]` once its trailing characters from `p` are dropped.
pub fn skip_end(v: &Vec<char>, lo: usize, hi: usize, p: &CharSet) -> (res: usize)
    requires
        lo <= hi <= v.len(),
    ensures
        lo <= res <= hi,
        v@.subrange(lo as int, res as int) == trim_end(v@.subrange(lo as int, hi as int), *p),
{
    let mut j: usize = hi;
    while j > lo && char_in_set(p, v[j - 1])
        invariant
            lo <= j <= hi <= v.len(),
            trim_end(v@.subrange(lo as int, j as int), *p) == trim_end(
                v@.subrange(lo as int, hi as int),
                *p,
            ),
        decreases j - lo,
    {
        assert(v@.subrange(lo as int, j as int).drop_last() =~= v@.subrange(
            lo as int,
            j - 1,
        ));
        j -= 1;
    }
    if j > lo {
    } else {
        assert(v@.subrange(lo as int, j as int).len() == 0);
    }
    j
}

/// Bounds of `trim(v[lo..hi], p)` inside `v`.
pub fn trim_range(v: &Vec<char>, lo: usize, hi: usize, p: &CharSet) -> (res: (usize, usize))
    requires
        lo <= hi <= v.len(),
    ensures
        lo <= res.0 <= res.1 <= hi,
        v@.subrange(res.0 as int, res.1 as int) == trim(v@.subrange(lo as int, hi as int), *p),
{
    let a = skip_start(v, lo, hi, p);
    let b = skip_end(v, a, hi, p);
    (a, b)
}

/// `s` trimmed of the characters in `p`, as a new `String`.
pub fn trim_str(s: &str, p: &CharSet) -> (res: String)
    ensures
        res@ == trim(s@, *p),
{
    let v = to_chars(s);
    assert(v@.subrange(0, v@.len() as int) =~= v@);
    let (a, b) = trim_range(&v, 0, v.len(), p);
    string_of(&v, a, b)
}

pub fn char_lower(c: char) -> (res: char)
    ensures
        res == ascii_lower(c),
{
    if 'A' <= c && c <= 'Z' {
        ((c as u8) + 32) as char
    } else {
        c
    }
}

pub fn char_upper(c: char) -> (res: char)
    ensures
        res == ascii_upper(c),
{
    if 'a' <= c && c <= 'z' {
        ((c as u8) - 32) as char
    } else {
        c
    }
}

/// `str::to_ascii_lowercase`.
pub fn to_lower(s: &str) -> (res: String)
    ensures
        res@ == lower(s@),
{
    let mut out = String::new();
    for c in it: s.chars()
        invariant
            it.seq() == s@,
            out@ == lower(s@).take(it.index() as int),
    {
        push_char(&mut out, char_lower(c));
        assert(lower(s@).take(it.index() + 1) =~= lower(s@).take(it.index() as int).push(
            ascii_lower(c),
        ));
    }
    assert(lower(s@).take(s@.len() as int) =~= lower(s@));
    out
}

/// `str::to_ascii_uppercase`.
pub fn to_upper(s: &str) -> (res: String)
    ensures
        res@ == upper(s@),
{
    let mut out = String::new();
    for c in it: s.chars()
        invariant
            it.seq() == s@,
            out@ == upper(s@).take(it.index() as int),
    {
        push_char(&mut out, char_upper(c));
        assert(upper(s@).take(it.index() + 1) =~= upper(s@).take(it.index() as int).push(
            ascii_upper(c),
        ));
    }
    assert(upper(s@).take(s@.len() as int) =~= upper(s@));
    out
}

/// Character-wise equality of two strings.
pub fn str_eq(a: &str, b: &str) -> (res: bool)
    ensures
        res == (a@ == b@),
{
    let x = to_chars(a);
    let y = to_chars(b);
    if x.len() != y.len() {
        return false;
    }
    let mut i: usize = 0;
    while i < x.len()
        invariant
            x@ == a@,
            y@ == b@,
            x.len() == y.len(),
            0 <= i <= x.len(),
            forall|k: int| 0 <= k < i ==> x@[k] == y@[k],
        decreases x.len() - i,
    {
        if x[i] != y[i] {
            assert(x@[i as int] != y@[i as int]);
            return false;
        }
        i += 1;
    }
    assert(x@ =~= y@);
    true
}

/// Appends the decimal digits of `n` to `out`.
pub fn push_dec(out: &mut String, n: u64)
    ensures
        final(out)@ == old(out)@ + dec(n as nat),
    decreases n,
{
    if n < 10 {
        push_char(out, ((n as u8) + 48) as char);
        assert(dec(n as nat) =~= seq![digit_char(n as nat)]);
    } else {
        push_dec(out, n / 10);
        push_char(out, ((n % 10) as u8 + 48) as char);
    }
}

/// The character sequences of a list of strings.
pub open spec fn views(v: Seq<String>) -> Seq<Seq<char>> {
    v.map_values(|s: String| s@)
}

/// `str::split` by a character set.
pub fn split_chars(v: &Vec<char>, p: &CharSet) -> (res: Vec<String>)
    ensures
        views(res@) == split(v@, *p),
{
    let mut done: Vec<String> = Vec::new();
    let mut cur = String::new();
    let mut i: usize = 0;
    assert(v@.take(0) =~= Seq::<char>::empty());
    assert(views(done@).push(cur@) =~= split(v@.take(0), *p));
    while i < v.len()
        invariant
            0 <= i <= v.len(),
            views(done@).push(cur@) == split(v@.take(i as int), *p),
        decreases v.len() - i,
    {
        let c = v[i];
        assert(v@.take(i + 1).drop_last() =~= v@.take(i as int));
        assert(v@.take(i + 1).last() == c);
        let ghost before = views(done@).push(cur@);
        if char_in_set(p, c) {
            let piece = cur;
            cur = String::new();
            done.push(piece);
            assert(views(done@).push(cur@) =~= before.push(Seq::<char>::empty()));
        } else {
            push_char(&mut cur, c);
            assert(views(done@).push(cur@) =~= before.update(
                before.len() - 1,
                before.last().push(c),
            ));
        }
        i += 1;
    }
    assert(v@.take(v@.len() as int) =~= v@);
    done.push(cur);
    done
}

/// `str::split_whitespace`.
pub fn words_of(v: &Vec<char>) -> (res: Vec<String>)
    ensures
        views(res@) == words(v@),
{
    let mut done: Vec<String> = Vec::new();
    let mut cur = String::new();
    let mut in_word = false;
    let mut i: usize = 0;
    assert(v@.take(0) =~= Seq::<char>::empty());
    assert(views(done@) =~= words(v@.take(0)));
    while i < v.len()
        invariant
            0 <= i <= v.len(),
            in_word == (i > 0 && !is_ws(v@[i - 1])),
            in_word ==> views(done@).push(cur@) == words(v@.take(i as int)),
            !in_word ==> views(done@) == words(v@.take(i as int)),
        decreases v.len() - i,
    {
        let c = v[i];
        let ghost pre = v@.take(i + 1);
        assert(pre.drop_last() =~= v@.take(i as int));
        assert(pre.last() == c);
        assert(i >= 1 ==> pre[pre.len() - 2] == v@[i - 1]);
        if char_is_ws(c) {
            if in_word {
                let w = cur;
                cur = String::new();
                done.push(w);
            }
            in_word = false;
        } else if in_word {
            let ghost before = views(done@).push(cur@);
            push_char(&mut cur, c);
            assert(views(done@).push(cur@) =~= before.update(
                before.len() - 1,
                before.last().push(c),
            ));
        } else {
            cur = String::new();
            push_char(&mut cur, c);
            assert(views(done@).push(cur@) =~= views(done@).push(seq![c]));
            in_word = true;
        }
        i += 1;
    }
    assert(v@.take(v@.len() as int) =~= v@);
    if in_word {
        done.push(cur);
    }
    done
}

/// The pieces joined with `sep` between them (`[String]::join`).
pub fn join_strings(parts: &Vec<String>, sep: &str) -> (res: String)
    ensures
        res@ == join(views(parts@), sep@),
{
    let mut out = String::new();
    let ghost all = views(parts@);
    let mut i: usize = 0;
    assert(all.take(0) =~= Seq::<Seq<char>>::empty());
    while i < parts.len()
        invariant
            0 <= i <= parts.len(),
            all == views(parts@),
            out@ == join(all.take(i as int), sep@),
        decreases parts.len() - i,
    {
        assert(all.take(i + 1).drop_last() =~= all.take(i as int));
        assert(all.take(i + 1).last() == parts@[i as int]@);
        if i != 0 {
            push_str(&mut out, sep);
        } else {
            assert(all.take(1).len() == 1);
        }
        push_str(&mut out, parts[i].as_str());
        i += 1;
    }
    assert(all.take(parts.len() as int) =~= all);
    out
}

/// `str::eq_ignore_ascii_case`.
pub fn eq_ignore_ascii_case(a: &str, b: &str) -> (res: bool)
    ensures
        res == (lower(a@) == lower(b@)),
{
    let la = to_lower(a);
    let lb = to_lower(b);
    str_eq(la.as_str(), lb.as_str())
}

/// `str::contains` with a string pattern.
pub fn str_contains(s: &str, t: &str) -> (res: bool)
    ensures
        res == contains_str(s@, t@),
{
    let v = to_chars(s);
    let w = to_chars(t);
    if w.len() > v.len() {
        assert forall|i: int| !occurs_at(s@, t@, i) by {}
        return false;
    }
    let mut i: usize = 0;
    while i <= v.len() - w.len()
        invariant
            v@ == s@,
            w@ == t@,
            w.len() <= v.len(),
            0 <= i <= v.len() - w.len() + 1,
            forall|k: int| 0 <= k < i ==> !occurs_at(s@, t@, k),
        decreases v.len() - w.len() + 1 - i,
    {
        let mut j: usize = 0;
        let mut matched = true;
        while j < w.len()
            invariant
                v@ == s@,
                w@ == t@,
                w.len() <= v.len(),
                i + w.len() <= v.len(),
                0 <= j <= w.len(),
                matched == forall|m: int| 0 <= m < j ==> v@[i + m] == w@[m],
            decreases w.len() - j,
        {
            if v[i + j] != w[j] {
                matched = false;
            }
            j += 1;
        }
        if matched {
            assert(s@.subrange(i as int, i + t@.len()) =~= t@);
            assert(occurs_at(s@, t@, i as int));
            return true;
        }
        assert(!occurs_at(s@, t@, i as int)) by {
            if occurs_at(s@, t@, i as int) {
                assert forall|m: int| 0 <= m < w.len() implies v@[i + m] == w@[m] by {
                    assert(s@.subrange(i as int, i + t@.len())[m] == v@[i + m]);
                }
            }
        }
        i += 1;
    }
    assert forall|k: int| !occurs_at(s@, t@, k) by {
        if 0 <= k && k + t@.len() <= s@.len() {
            assert(k < i);
        }
    }
    false
}

/// `s` with each tab replaced by four spaces (`str::replace('\t', "    ")`).
pub open spec fn tabs_expanded(s: Seq<char>) -> Seq<char>
    decreases s.len(),
{
    if s.len() == 0 {
        Seq::<char>::empty()
    } else if s.last() == '\t' {
        tabs_expanded(s.drop_last()) + seq![' ', ' ', ' ', ' ']
    } else {
        tabs_expanded(s.drop_last()).push(s.last())
    }
}

/// Replaces each tab of `text` by four spaces, as text is measured.
pub fn expand_tabs(text: &str) -> (res: String)
    ensures
        res@ == tabs_expanded(text@),
{
    let v = to_chars(text);
    let mut out = String::new();
    let mut i: usize = 0;
    assert(v@.take(0) =~= Seq::<char>::empty());
    while i < v.len()
        invariant
            0 <= i <= v.len(),
            v@ == text@,
            out@ == tabs_expanded(v@.take(i as int)),
        decreases v.len() - i,
    {
        assert(v@.take(i + 1).drop_last() =~= v@.take(i as int));
        assert(v@.take(i + 1).last() == v@[i as int]);
        if v[i] == '\t' {
            push_str(&mut out, "    ");
            proof {
                reveal_strlit("    ");
            }
        } else {
            push_char(&mut out, v[i]);
        }
        assert(out@ =~= tabs_expanded(v@.take(i + 1)));
        i += 1;
    }
    assert(v@.take(v.len() as int) =~= v@);
    out
}

/// White space is exactly the Unicode `White_Space` characters that
/// `char::is_whitespace` accepts: the 25 characters of this list.
pub proof fn lemma_ws_is_unicode_white_space()
    ensures
        forall|c: char| is_ws(c) <==> "\u{9}\u{a}\u{b}\u{c}\u{d} \u{85}\u{a0}\u{1680}\u{2000}\u{2001}\u{2002}\u{2003}\u{2004}\u{2005}\u{2006}\u{2007}\u{2008}\u{2009}\u{200a}\u{2028}\u{2029}\u{202f}\u{205f}\u{3000}"@.contains(c),
{
    reveal_strlit("\u{9}\u{a}\u{b}\u{c}\u{d} \u{85}\u{a0}\u{1680}\u{2000}\u{2001}\u{2002}\u{2003}\u{2004}\u{2005}\u{2006}\u{2007}\u{2008}\u{2009}\u{200a}\u{2028}\u{2029}\u{202f}\u{205f}\u{3000}");
    let w = "\u{9}\u{a}\u{b}\u{c}\u{d} \u{85}\u{a0}\u{1680}\u{2000}\u{2001}\u{2002}\u{2003}\u{2004}\u{2005}\u{2006}\u{2007}\u{2008}\u{2009}\u{200a}\u{2028}\u{2029}\u{202f}\u{205f}\u{3000}"@;
    assert(w.len() == 25);
    assert forall|c: char| is_ws(c) <==> w.contains(c) by {
        if is_ws(c) {
            let v = c as int;
            if '\u{9}' <= c && c <= '\u{d}' {
                assert(w[v - 9] == c);
            } else if c == ' ' {
                assert(w[5] == c);
            } else if c == '\u{85}' {
                assert(w[6] == c);
            } else if c == '\u{a0}' {
                assert(w[7] == c);
            } else if c == '\u{1680}' {
                assert(w[8] == c);
            } else if '\u{2000}' <= c && c <= '\u{200a}' {
                assert(w[v - 0x2000 + 9] == c);
            } else if c == '\u{2028}' {
                assert(w[20] == c);
            } else if c == '\u{2029}' {
                assert(w[21] == c);
            } else if c == '\u{202f}' {
                assert(w[22] == c);
            } else if c == '\u{205f}' {
                assert(w[23] == c);
            } else {
                assert(w[24] == c);
            }
        }
        if w.contains(c) {
            let i = choose|i: int| 0 <= i < w.len() && w[i] == c;
            if i == 0 {
                assert(w[0] == '\u{9}');
            } else if i == 1 {
                assert(w[1] == '\u{a}');
            } else if i == 2 {
                assert(w[2] == '\u{b}');
            } else if i == 3 {
                assert(w[3] == '\u{c}');
            } else if i == 4 {
                assert(w[4] == '\u{d}');
            } else if i == 5 {
                assert(w[5] == ' ');
            } else if i == 6 {
                assert(w[6] == '\u{85}');
            } else if i == 7 {
                assert(w[7] == '\u{a0}');
            } else if i == 8 {
                assert(w[8] == '\u{1680}');
            } else if i == 9 {
                assert(w[9] == '\u{2000}');
            } else if i == 10 {
                assert(w[10] == '\u{2001}');
            } else if i == 11 {
                assert(w[11] == '\u{2002}');
            } else if i == 12 {
                assert(w[12] == '\u{2003}');
            } else if i == 13 {
                assert(w[13] == '\u{2004}');
            } else if i == 14 {
                assert(w[14] == '\u{2005}');
            } else if i == 15 {
                assert(w[15] == '\u{2006}');
            } else if i == 16 {
                assert(w[16] == '\u{2007}');
            } else if i == 17 {
                assert(w[17] == '\u{2008}');
            } else if i == 18 {
                assert(w[18] == '\u{2009}');
            } else if i == 19 {
                assert(w[19] == '\u{200a}');
            } else if i == 20 {
                assert(w[20] == '\u{2028}');
            } else if i == 21 {
                assert(w[21] == '\u{2029}');
            } else if i == 22 {
                assert(w[22] == '\u{202f}');
            } else if i == 23 {
                assert(w[23] == '\u{205f}');
            } else if i == 24 {
                assert(w[24] == '\u{3000}');
            }
        }
    }
}

/// ASCII case mapping: `lower` turns `A`..`Z` into `a`..`z` and `upper`
/// turns them back; every other character is left as it is.
pub proof fn lemma_ascii_case_mapping()
    ensures
        forall|i: int| 0 <= i < 26 ==> #[trigger] ascii_lower("ABCDEFGHIJKLMNOPQRSTUVWXYZ"@[i]) == "abcdefghijklmnopqrstuvwxyz"@[i] && ascii_upper(
            "abcdefghijklmnopqrstuvwxyz"@[i],
        ) == "ABCDEFGHIJKLMNOPQRSTUVWXYZ"@[i],
        forall|c: char| !"ABCDEFGHIJKLMNOPQRSTUVWXYZ"@.contains(c) ==> #[trigger] ascii_lower(c) == c,
        forall|c: char| !"abcdefghijklmnopqrstuvwxyz"@.contains(c) ==> #[trigger] ascii_upper(c) == c,
{
    reveal_strlit("ABCDEFGHIJKLMNOPQRSTUVWXYZ");
    reveal_strlit("abcdefghijklmnopqrstuvwxyz");
    let up = "ABCDEFGHIJKLMNOPQRSTUVWXYZ"@;
    let lo = "abcdefghijklmnopqrstuvwxyz"@;
    assert forall|i: int| 0 <= i < 26 implies #[trigger] ascii_lower(up[i]) == lo[i] && ascii_upper(lo[i]) == up[i] by {
            if i == 0 {
                assert(up[0] == 'A' && lo[0] == 'a');
            } else if i == 1 {
                assert(up[1] == 'B' && lo[1] == 'b');
            } else if i == 2 {
                assert(up[2] == 'C' && lo[2] == 'c');
            } else if i == 3 {
                assert(up[3] == 'D' && lo[3] == 'd');
            } else if i == 4 {
                assert(up[4] == 'E' && lo[4] == 'e');
            } else if i == 5 {
                assert(up[5] == 'F' && lo[5] == 'f');
            } else if i == 6 {
                assert(up[6] == 'G' && lo[6] == 'g');
            } else if i == 7 {
                assert(up[7] == 'H' && lo[7] == 'h');
            } else if i == 8 {
                assert(up[8] == 'I' && lo[8] == 'i');
            } else if i == 9 {
                assert(up[9] == 'J' && lo[9] == 'j');
            } else if i == 10 {
                assert(up[10] == 'K' && lo[10] == 'k');
            } else if i == 11 {
                assert(up[11] == 'L' && lo[11] == 'l');
            } else if i == 12 {
                assert(up[12] == 'M' && lo[12] == 'm');
            } else if i == 13 {
                assert(up[13] == 'N' && lo[13] == 'n');
            } else if i == 14 {
                assert(up[14] == 'O' && lo[14] == 'o');
            } else if i == 15 {
                assert(up[15] == 'P' && lo[15] == 'p');
            } else if i == 16 {
                assert(up[16] == 'Q' && lo[16] == 'q');
            } else if i == 17 {
                assert(up[17] == 'R' && lo[17] == 'r');
            } else if i == 18 {
                assert(up[18] == 'S' && lo[18] == 's');
            } else if i == 19 {
                assert(up[19] == 'T' && lo[19] == 't');
            } else if i == 20 {
                assert(up[20] == 'U' && lo[20] == 'u');
            } else if i == 21 {
                assert(up[21] == 'V' && lo[21] == 'v');
            } else if i == 22 {
                assert(up[22] == 'W' && lo[22] == 'w');
            } else if i == 23 {
                assert(up[23] == 'X' && lo[23] == 'x');
            } else if i == 24 {
                assert(up[24] == 'Y' && lo[24] == 'y');
            } else if i == 25 {
                assert(up[25] == 'Z' && lo[25] == 'z');
            }
    }
    assert forall|c: char| !up.contains(c) implies #[trigger] ascii_lower(c) == c by {
        if 'A' <= c && c <= 'Z' {
            assert(up[c as int - 65] == c);
        }
    }
    assert forall|c: char| !lo.contains(c) implies #[trigger] ascii_upper(c) == c by {
        if 'a' <= c && c <= 'z' {
            assert(lo[c as int - 97] == c);
        }
    }
}

/// Splitting loses and adds nothing: there is always at least one piece, no
/// piece holds a separator, and for a single separator character the pieces
/// joined with it give the text back.
pub proof fn lemma_split_rejoin(s: Seq<char>, p: CharSet)
    ensures
        split(s, p).len() >= 1,
        forall|i: int, j: int|
            0 <= i < split(s, p).len() && 0 <= j < split(s, p)[i].len() ==> !in_set(p, #[trigger] split(s, p)[i][j]),
        p matches CharSet::One(c) ==> join(split(s, p), seq![c]) == s,
    decreases s.len(),
{
    if s.len() > 0 {
        let pre = s.drop_last();
        let x = s.last();
        lemma_split_rejoin(pre, p);
        let init = split(pre, p);
        let r = split(s, p);
        if in_set(p, x) {
            assert(r == init.push(Seq::<char>::empty()));
            assert forall|i: int, j: int| 0 <= i < r.len() && 0 <= j < r[i].len() implies !in_set(p, #[trigger] r[i][j]) by {
                assert(r[i] == init[i]);
            }
            if let CharSet::One(c) = p {
                assert(r.drop_last() =~= init);
                assert(join(r, seq![c]) == join(init, seq![c]) + seq![c] + Seq::<char>::empty());
                assert(pre + seq![c] + Seq::<char>::empty() =~= s);
            }
        } else {
            let nl = init.last().push(x);
            assert(r == init.update(init.len() - 1, nl));
            assert forall|i: int, j: int| 0 <= i < r.len() && 0 <= j < r[i].len() implies !in_set(p, #[trigger] r[i][j]) by {
                if i < r.len() - 1 {
                    assert(r[i] == init[i]);
                } else if j < init.last().len() {
                    assert(r[i][j] == init[init.len() - 1][j]);
                }
            }
            if let CharSet::One(c) = p {
                lemma_join_extend_last(init, seq![c], seq![x]);
                assert(init.last() + seq![x] =~= nl);
                assert(pre + seq![x] =~= s);
            }
        }
    }
}

proof fn lemma_trim_start_at(s: Seq<char>, p: CharSet) -> (a: int)
    ensures
        0 <= a <= s.len(),
        trim_start(s, p) == s.skip(a),
        forall|i: int| 0 <= i < a ==> in_set(p, #[trigger] s[i]),
        a < s.len() ==> !in_set(p, s[a]),
    decreases s.len(),
{
    if s.len() > 0 && in_set(p, s[0]) {
        let t = s.drop_first();
        let a0 = lemma_trim_start_at(t, p);
        assert(t.skip(a0) =~= s.skip(a0 + 1));
        assert forall|i: int| 0 <= i < a0 + 1 implies in_set(p, #[trigger] s[i]) by {
            if i > 0 {
                assert(s[i] == t[i - 1]);
            }
        }
        a0 + 1
    } else {
        assert(s.skip(0) =~= s);
        0
    }
}

proof fn lemma_trim_end_at(s: Seq<char>, p: CharSet) -> (b: int)
    ensures
        0 <= b <= s.len(),
        trim_end(s, p) == s.take(b),
        forall|i: int| b <= i < s.len() ==> in_set(p, #[trigger] s[i]),
        b > 0 ==> !in_set(p, s[b - 1]),
    decreases s.len(),
{
    if s.len() > 0 && in_set(p, s.last()) {
        let t = s.drop_last();
        let b0 = lemma_trim_end_at(t, p);
        assert(t.take(b0) =~= s.take(b0));
        assert forall|i: int| b0 <= i < s.len() implies in_set(p, #[trigger] s[i]) by {
            if i < s.len() - 1 {
                assert(s[i] == t[i]);
            }
        }
        b0
    } else {
        assert(s.take(s.len() as int) =~= s);
        s.len() as int
    }
}

/// Trimming removes exactly the leading and trailing characters of the set:
/// the result is a contiguous part of the text, everything cut off belongs to
/// the set, and a non-empty result starts and ends outside it.
pub proof fn lemma_trim_strips(s: Seq<char>, p: CharSet)
    ensures
        exists|a: int, b: int|
            {
                &&& 0 <= a <= b <= s.len()
                &&& trim(s, p) == s.subrange(a, b)
                &&& forall|i: int| 0 <= i < a ==> in_set(p, #[trigger] s[i])
                &&& forall|i: int| b <= i < s.len() ==> in_set(p, #[trigger] s[i])
                &&& a < b ==> !in_set(p, s[a]) && !in_set(p, s[b - 1])
            },
{
    let a = lemma_trim_start_at(s, p);
    let t = s.skip(a);
    let b0 = lemma_trim_end_at(t, p);
    let b = a + b0;
    assert(t.take(b0) =~= s.subrange(a, b));
    assert forall|i: int| b <= i < s.len() implies in_set(p, #[trigger] s[i]) by {
        assert(s[i] == t[i - a]);
    }
    if a < b {
        assert(s[a] == t[0]);
        assert(s[b - 1] == t[b0 - 1]);
    }
}

proof fn lemma_split_last_piece(t: Seq<char>, p: CharSet)
    ensures
        split(t, p).len() >= 1,
        split(t, p).last().len() > 0 <==> (t.len() > 0 && !in_set(p, t.last())),
    decreases t.len(),
{
    if t.len() > 0 {
        lemma_split_last_piece(t.drop_last(), p);
    }
}

/// The words of a text are its white-space-separated pieces that are not
/// empty (`split_whitespace` is `split(char::is_whitespace)` without the
/// empty pieces).
pub proof fn lemma_words_are_nonempty_pieces(s: Seq<char>)
    ensures
        words(s) == split(s, CharSet::Ws).filter(|w: Seq<char>| w.len() > 0),
    decreases s.len(),
{
    reveal(Seq::filter);
    let keep = |w: Seq<char>| w.len() > 0;
    if s.len() == 0 {
        let r = split(s, CharSet::Ws);
        assert(r == seq![Seq::<char>::empty()]);
        assert(r.drop_last() =~= Seq::<Seq<char>>::empty());
        assert(r.drop_last().filter(keep) == r.drop_last());
        assert(!keep(r.last()));
        assert(r.filter(keep) == r.drop_last().filter(keep));
    } else {
        let pre = s.drop_last();
        let x = s.last();
        lemma_words_are_nonempty_pieces(pre);
        lemma_split_last_piece(pre, CharSet::Ws);
        let sp = split(pre, CharSet::Ws);
        let r = split(s, CharSet::Ws);
        if is_ws(x) {
            assert(r == sp.push(Seq::<char>::empty()));
            assert(r.drop_last() =~= sp);
        } else {
            let nl = sp.last().push(x);
            assert(r == sp.update(sp.len() - 1, nl));
            assert(r.drop_last() =~= sp.drop_last());
            assert(r.last() == nl);
            if s.len() >= 2 && !is_ws(s[s.len() - 2]) {
                assert(pre.last() == s[s.len() - 2]);
                assert(sp.last().len() > 0);
                assert(sp.filter(keep) == sp.drop_last().filter(keep).push(sp.last()));
                assert(r.filter(keep) =~= sp.filter(keep).update(sp.filter(keep).len() - 1, nl));
            } else {
                if pre.len() > 0 {
                    assert(pre.last() == s[s.len() - 2]);
                }
                assert(sp.last().len() == 0);
                assert(sp.filter(keep) == sp.drop_last().filter(keep));
                assert(nl =~= seq![x]);
            }
        }
    }
}

} // verus!
