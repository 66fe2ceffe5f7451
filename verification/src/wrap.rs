//! Word wrapping by measured width. Measuring text takes fonts and
//! floating-point arithmetic, so the caller measures and this module
//! decides: it offers each candidate line, is told whether it fits, and
//! breaks lines accordingly.
use vstd::prelude::*;
use crate::labels::{first_word, lemma_first_word_concat, lemma_first_word_whole, lemma_words_no_space};
use crate::text::{is_ws, join, lemma_join_extend_last, push_char, push_str, to_chars, views, words, words_of};

verus! {

/// The line that would result from adding `word` to the line `current`.
pub open spec fn candidate_of(current: Seq<char>, word: Seq<char>) -> Seq<char> {
    if current.len() == 0 {
        word
    } else {
        current.push(' ') + word
    }
}

/// The finished lines and the open line after `word` is placed, given
/// whether its candidate line fits: a word that does not fit after others
/// closes the open line and starts a new one; otherwise it joins the open
/// line.
pub open spec fn step_of(lines: Seq<Seq<char>>, current: Seq<char>, word: Seq<char>, fits: bool) -> (
    Seq<Seq<char>>,
    Seq<char>,
) {
    if current.len() > 0 && !fits {
        (lines.push(current), word)
    } else {
        (lines, candidate_of(current, word))
    }
}

/// The finished lines followed by the open line, if there is one.
pub open spec fn finished(lines: Seq<Seq<char>>, current: Seq<char>) -> Seq<Seq<char>> {
    if current.len() == 0 {
        lines
    } else {
        lines.push(current)
    }
}

/// The lines and open line after placing the words `ws` in turn, each
/// candidate judged by `fits`.
pub open spec fn wrap_state(ws: Seq<Seq<char>>, fits: spec_fn(Seq<char>) -> bool) -> (Seq<Seq<char>>, Seq<char>)
    decreases ws.len(),
{
    if ws.len() == 0 {
        (Seq::<Seq<char>>::empty(), Seq::<char>::empty())
    } else {
        let (lines, current) = wrap_state(ws.drop_last(), fits);
        step_of(lines, current, ws.last(), fits(candidate_of(current, ws.last())))
    }
}

/// `text` wrapped with `fits` as the measure: the whole text when it fits,
/// else its words packed greedily into lines.
pub open spec fn text_wrap_of(text: Seq<char>, fits: spec_fn(Seq<char>) -> bool) -> Seq<Seq<char>> {
    if fits(text) {
        seq![text]
    } else {
        let (lines, current) = wrap_state(words(text), fits);
        finished(lines, current)
    }
}

/// A wrap in progress: the words still to place, the finished lines and the
/// open line.
pub struct TextWrap {
    words: Vec<String>,
    next: usize,
    lines: Vec<String>,
    current: String,
}

impl View for TextWrap {
    /// The words, how many are placed, the finished lines, the open line.
    type V = (Seq<Seq<char>>, nat, Seq<Seq<char>>, Seq<char>);

    closed spec fn view(&self) -> Self::V {
        (views(self.words@), self.next as nat, views(self.lines@), self.current@)
    }
}

impl TextWrap {
    /// Starts wrapping `text`; `whole_fits` tells whether the whole text fits
    /// on one line, in which case it is the only line.
    pub fn new(text: &str, whole_fits: bool) -> (res: Self)
        ensures
            whole_fits ==> res@ == (Seq::<Seq<char>>::empty(), 0nat, seq![text@], Seq::<char>::empty()),
            !whole_fits ==> res@ == (words(text@), 0nat, Seq::<Seq<char>>::empty(), Seq::<char>::empty()),
    {
        if whole_fits {
            let mut lines: Vec<String> = Vec::new();
            lines.push(text.to_owned());
            let res = TextWrap { words: Vec::new(), next: 0, lines, current: String::new() };
            assert(res@.0 =~= Seq::<Seq<char>>::empty());
            assert(res@.2 =~= seq![text@]);
            res
        } else {
            let ws = words_of(&to_chars(text));
            let res = TextWrap { words: ws, next: 0, lines: Vec::new(), current: String::new() };
            assert(res@.2 =~= Seq::<Seq<char>>::empty());
            res
        }
    }

    /// The line to measure next: the open line with the next word added;
    /// `None` when every word is placed.
    pub fn candidate(&self) -> (res: Option<String>)
        ensures
            res is Some <==> self@.1 < self@.0.len(),
            res matches Some(c) ==> c@ == candidate_of(self@.3, self@.0[self@.1 as int]),
    {
        if self.next >= self.words.len() {
            return None;
        }
        let word = self.words[self.next].as_str();
        if self.current.as_str().is_empty() {
            Some(word.to_owned())
        } else {
            let mut c = self.current.clone();
            push_char(&mut c, ' ');
            push_str(&mut c, word);
            Some(c)
        }
    }

    /// Whether every word is placed.
    pub fn done(&self) -> (res: bool)
        ensures
            res == (self@.1 >= self@.0.len()),
    {
        assert(views(self.words@).len() == self.words@.len());
        self.next >= self.words.len()
    }

    /// Places the next word, told whether its candidate line fits.
    pub fn step(&mut self, fits: bool)
        requires
            old(self)@.1 < old(self)@.0.len(),
        ensures
            final(self)@.0 == old(self)@.0,
            final(self)@.1 == old(self)@.1 + 1,
            (final(self)@.2, final(self)@.3) == step_of(
                old(self)@.2,
                old(self)@.3,
                old(self)@.0[old(self)@.1 as int],
                fits,
            ),
    {
        assert(views(self.words@).len() == self.words@.len());
        let n = self.next;
        assert(n < self.words.len());
        let word = self.words[n].clone();
        let ghost w = self.words@[self.next as int]@;
        let ghost old_lines = views(self.lines@);
        if !self.current.as_str().is_empty() && !fits {
            let mut line = word;
            std::mem::swap(&mut line, &mut self.current);
            self.lines.push(line);
            assert(views(self.lines@) =~= old_lines.push(line@));
        } else if self.current.as_str().is_empty() {
            self.current = word;
        } else {
            push_char(&mut self.current, ' ');
            push_str(&mut self.current, word.as_str());
        }
        self.next = n + 1;
    }

    /// The lines of the wrap: the finished lines and the open one.
    pub fn finish(self) -> (res: Vec<String>)
        ensures
            views(res@) == finished(self@.2, self@.3),
    {
        let TextWrap { words: _, next: _, lines, current } = self;
        let mut lines = lines;
        if !current.as_str().is_empty() {
            let ghost before = views(lines@);
            lines.push(current);
            assert(views(lines@) =~= before.push(current@));
        }
        lines
    }
}

/// Every word of a text is non-empty.
proof fn lemma_words_nonempty(s: Seq<char>)
    ensures
        forall|i: int| 0 <= i < words(s).len() ==> (#[trigger] words(s)[i]).len() > 0,
        s.len() > 0 && !is_ws(s.last()) ==> words(s).len() > 0,
    decreases s.len(),
{
    if s.len() > 0 {
        lemma_words_nonempty(s.drop_last());
        let init = words(s.drop_last());
        if is_ws(s.last()) {
        } else if s.len() >= 2 && !is_ws(s[s.len() - 2]) {
            assert(s.drop_last().last() == s[s.len() - 2]);
            let r = init.update(init.len() - 1, init.last().push(s.last()));
            assert forall|i: int| 0 <= i < r.len() implies (#[trigger] r[i]).len() > 0 by {
                if i < r.len() - 1 {
                    assert(r[i] == init[i]);
                }
            }
        } else {
            let r = init.push(seq![s.last()]);
            assert forall|i: int| 0 <= i < r.len() implies (#[trigger] r[i]).len() > 0 by {
                if i < r.len() - 1 {
                    assert(r[i] == init[i]);
                }
            }
        }
    }
}

proof fn lemma_wrap_state_keeps_words(ws: Seq<Seq<char>>, fits: spec_fn(Seq<char>) -> bool)
    requires
        forall|i: int| 0 <= i < ws.len() ==> (#[trigger] ws[i]).len() > 0,
    ensures
        wrap_state(ws, fits).1.len() == 0 <==> ws.len() == 0,
        wrap_state(ws, fits).1.len() == 0 ==> wrap_state(ws, fits).0.len() == 0,
        join(finished(wrap_state(ws, fits).0, wrap_state(ws, fits).1), seq![' ']) == join(ws, seq![' ']),
        forall|j: int| 0 <= j < wrap_state(ws, fits).0.len() ==> (#[trigger] wrap_state(ws, fits).0[j]).len() > 0,
    decreases ws.len(),
{
    if ws.len() > 0 {
        let pre = ws.drop_last();
        assert forall|i: int| 0 <= i < pre.len() implies (#[trigger] pre[i]).len() > 0 by {
            assert(pre[i] == ws[i]);
        }
        lemma_wrap_state_keeps_words(pre, fits);
        let (lines, current) = wrap_state(pre, fits);
        let w = ws.last();
        assert(w == ws[ws.len() - 1]);
        let sp = seq![' '];
        if current.len() == 0 {
            assert(finished(wrap_state(ws, fits).0, wrap_state(ws, fits).1) =~= seq![w]);
        } else if !fits(candidate_of(current, w)) {
            let l2 = lines.push(current);
            assert(l2.push(w).drop_last() =~= l2);
            assert(join(ws, sp) == join(pre, sp) + sp + w);
            assert forall|j: int| 0 <= j < l2.len() implies (#[trigger] l2[j]).len() > 0 by {
                if j < lines.len() {
                    assert(l2[j] == lines[j]);
                }
            }
        } else {
            let l2 = lines.push(current);
            lemma_join_extend_last(l2, sp, sp + w);
            assert(current.push(' ') + w =~= current + (sp + w));
            assert(l2.update(l2.len() - 1, current + (sp + w)) =~= lines.push(current.push(' ') + w));
            assert(join(ws, sp) =~= join(pre, sp) + sp + w);
        }
    }
}

proof fn lemma_wrap_state_fits(ws: Seq<Seq<char>>, fits: spec_fn(Seq<char>) -> bool)
    ensures
        forall|j: int| 0 <= j < wrap_state(ws, fits).0.len() ==> fits(#[trigger] wrap_state(ws, fits).0[j])
            || ws.contains(wrap_state(ws, fits).0[j]),
        wrap_state(ws, fits).1.len() > 0 ==> fits(wrap_state(ws, fits).1) || ws.contains(wrap_state(ws, fits).1),
    decreases ws.len(),
{
    if ws.len() > 0 {
        let pre = ws.drop_last();
        lemma_wrap_state_fits(pre, fits);
        let (lines, current) = wrap_state(pre, fits);
        let w = ws.last();
        assert(ws.contains(w)) by {
            assert(ws[ws.len() - 1] == w);
        }
        assert forall|k: int| 0 <= k < pre.len() implies ws.contains(#[trigger] pre[k]) by {
            assert(ws[k] == pre[k]);
        }
        let (l2, c2) = wrap_state(ws, fits);
        assert forall|j: int| 0 <= j < l2.len() implies fits(#[trigger] l2[j]) || ws.contains(l2[j]) by {
            if j < lines.len() {
                assert(l2[j] == lines[j]);
                if !fits(lines[j]) {
                    let k = choose|k: int| 0 <= k < pre.len() && pre[k] == lines[j];
                    assert(ws.contains(pre[k]));
                }
            } else {
                assert(l2[j] == current);
                if !fits(current) {
                    let k = choose|k: int| 0 <= k < pre.len() && pre[k] == current;
                    assert(ws.contains(pre[k]));
                }
            }
        }
    }
}

/// Wrapping by measured width never splits a word and never loses one: when
/// the text is wrapped, its lines joined with spaces are its words joined
/// with spaces, and no line is empty.
pub proof fn lemma_text_wrap_keeps_words(text: Seq<char>, fits: spec_fn(Seq<char>) -> bool)
    ensures
        !fits(text) ==> join(text_wrap_of(text, fits), seq![' ']) == join(words(text), seq![' ']),
        !fits(text) ==> forall|j: int| 0 <= j < text_wrap_of(text, fits).len() ==> (#[trigger] text_wrap_of(text, fits)[j]).len() > 0,
{
    lemma_words_nonempty(text);
    lemma_wrap_state_keeps_words(words(text), fits);
    if !fits(text) {
        let (lines, current) = wrap_state(words(text), fits);
        let r = text_wrap_of(text, fits);
        assert forall|j: int| 0 <= j < r.len() implies (#[trigger] r[j]).len() > 0 by {
            if j < lines.len() {
                assert(r[j] == lines[j]);
            }
        }
    }
}

/// No line exceeds the width: every line fits, unless it is a single word
/// too wide by itself, which is kept whole.
pub proof fn lemma_text_wrap_lines_fit(text: Seq<char>, fits: spec_fn(Seq<char>) -> bool)
    ensures
        forall|j: int| 0 <= j < text_wrap_of(text, fits).len() ==> fits(#[trigger] text_wrap_of(text, fits)[j])
            || words(text).contains(text_wrap_of(text, fits)[j]),
{
    if !fits(text) {
        let ws = words(text);
        lemma_wrap_state_fits(ws, fits);
        let (lines, current) = wrap_state(ws, fits);
        let r = text_wrap_of(text, fits);
        assert forall|j: int| 0 <= j < r.len() implies fits(#[trigger] r[j]) || ws.contains(r[j]) by {
            if j < lines.len() {
                assert(r[j] == lines[j]);
            } else {
                assert(r[j] == current);
            }
        }
    }
}

/// `fits` has judged a text with the characters `l` to fit.
pub open spec fn judged_fit<F: Fn(&str) -> bool>(fits: F, l: Seq<char>) -> bool {
    exists|s: &str| s@ == l && call_ensures(fits, (s,), true)
}

/// `fits` answers as the spec predicate `p` does, on every text.
pub open spec fn decided_by<F: Fn(&str) -> bool>(fits: F, p: spec_fn(Seq<char>) -> bool) -> bool {
    forall|s: &str, r: bool| call_ensures(fits, (s,), r) ==> r == p(s@)
}

/// `fits` has judged the line `line`, with the word `next` added after a
/// space, not to fit.
pub open spec fn judged_break<F: Fn(&str) -> bool>(fits: F, line: Seq<char>, next: Seq<char>) -> bool {
    exists|s: &str| s@ == line.push(' ') + next && call_ensures(fits, (s,), false)
}

/// Wraps `text`, asking `fits` whether a line fits: first the whole text,
/// which stays one line when it fits; else each candidate line in turn. The
/// wrapped lines are non-empty, hold the words of the text in order, and
/// each was judged to fit or is a single word. A line ends only where the
/// next line's first word, added to it, was judged not to fit; when `fits`
/// answers as a predicate `p`, the lines are exactly `text_wrap_of(text, p)`.
pub fn wrap_text_by<F: Fn(&str) -> bool>(text: &str, fits: F) -> (res: Vec<String>)
    requires
        forall|s: &str| call_requires(fits, (s,)),
    ensures
        (call_ensures(fits, (text,), true) && views(res@) == seq![text@]) || {
            &&& call_ensures(fits, (text,), false)
            &&& join(views(res@), seq![' ']) == join(words(text@), seq![' '])
            &&& forall|j: int|
                0 <= j < res@.len() ==> (#[trigger] res@[j])@.len() > 0 && (words(text@).contains(res@[j]@)
                    || judged_fit(fits, res@[j]@))
        },
        forall|i: int|
            0 <= i < res@.len() - 1 ==> judged_break(fits, (#[trigger] res@[i])@, first_word(res@[i + 1]@)),
        forall|p: spec_fn(Seq<char>) -> bool| #[trigger] decided_by(fits, p) ==> views(res@) == text_wrap_of(text@, p),
{
    let whole = fits(text);
    let mut wrap = TextWrap::new(text, whole);
    if whole {
        let res = wrap.finish();
        proof {
            assert(views(res@).len() == res@.len());
            assert(res@.len() == 1);
            assert forall|p: spec_fn(Seq<char>) -> bool| #[trigger] decided_by(fits, p) implies views(res@)
                == text_wrap_of(text@, p) by {
                assert(p(text@) == whole);
            }
        }
        return res;
    }
    let ghost ws = words(text@);
    let ghost sp: Seq<char> = seq![' '];
    proof {
        lemma_words_nonempty(text@);
        lemma_words_no_space(text@);
        assert(ws.take(0) =~= Seq::<Seq<char>>::empty());
        assert forall|p: spec_fn(Seq<char>) -> bool| #[trigger] decided_by(fits, p) implies p(text@) == false by {}
    }
    while !wrap.done()
        invariant
            call_ensures(fits, (text,), false),
            forall|s: &str| call_requires(fits, (s,)),
            ws == words(text@),
            sp == seq![' '],
            forall|i: int| 0 <= i < ws.len() ==> (#[trigger] ws[i]).len() > 0,
            forall|i: int, j: int| 0 <= i < ws.len() && 0 <= j < ws[i].len() ==> #[trigger] ws[i][j] != ' ',
            wrap@.0 == ws,
            wrap@.1 <= ws.len(),
            join(finished(wrap@.2, wrap@.3), sp) == join(ws.take(wrap@.1 as int), sp),
            wrap@.3.len() == 0 <==> wrap@.1 == 0,
            wrap@.3.len() == 0 ==> wrap@.2.len() == 0,
            forall|j: int|
                0 <= j < wrap@.2.len() ==> (#[trigger] wrap@.2[j]).len() > 0 && (ws.contains(wrap@.2[j])
                    || judged_fit(fits, wrap@.2[j])),
            wrap@.3.len() > 0 ==> ws.contains(wrap@.3) || judged_fit(fits, wrap@.3),
            forall|i: int|
                0 <= i < wrap@.2.len() - 1 ==> judged_break(fits, #[trigger] wrap@.2[i], first_word(wrap@.2[i + 1])),
            wrap@.2.len() > 0 ==> judged_break(fits, wrap@.2.last(), first_word(wrap@.3)),
            forall|p: spec_fn(Seq<char>) -> bool| #[trigger] decided_by(fits, p) ==> (wrap@.2, wrap@.3) == wrap_state(
                ws.take(wrap@.1 as int),
                p,
            ),
        decreases ws.len() - wrap@.1,
    {
        let ghost old_view = wrap@;
        let ghost n = old_view.1 as int;
        let ghost w = ws[n];
        let c = wrap.candidate().unwrap();
        let cs: &str = c.as_str();
        let f = fits(cs);
        wrap.step(f);
        proof {
            let lines = old_view.2;
            let cur = old_view.3;
            assert(ws.contains(w));
            assert(ws.take(n + 1).drop_last() =~= ws.take(n));
            assert(ws.take(n + 1).last() == w);
            assert forall|j: int| 0 <= j < w.len() implies w[j] != ' ' by {
                assert(ws[n][j] != ' ');
            }
            lemma_first_word_whole(w);
            assert forall|p: spec_fn(Seq<char>) -> bool| #[trigger] decided_by(fits, p) implies (wrap@.2, wrap@.3)
                == wrap_state(ws.take(n + 1), p) by {
                assert(f == p(cs@));
            }
            if cur.len() == 0 {
                assert(wrap@.2 =~= lines);
                assert(finished(wrap@.2, wrap@.3) =~= seq![w]);
                assert(ws.take(1) =~= seq![w]);
            } else if !f {
                let l2 = lines.push(cur);
                assert(wrap@.2 == l2);
                assert(finished(wrap@.2, wrap@.3) == l2.push(w));
                assert(l2.push(w).drop_last() =~= l2);
                assert forall|j: int| 0 <= j < l2.len() implies (#[trigger] l2[j]).len() > 0 && (ws.contains(l2[j])
                    || judged_fit(fits, l2[j])) by {
                    if j < lines.len() {
                        assert(l2[j] == lines[j]);
                    }
                }
                assert forall|i: int| 0 <= i < l2.len() - 1 implies judged_break(fits, #[trigger] l2[i], first_word(l2[i + 1])) by {
                    assert(l2[i] == lines[i]);
                    if i + 1 < lines.len() {
                        assert(l2[i + 1] == lines[i + 1]);
                    } else {
                        assert(l2[i + 1] == cur);
                    }
                }
                assert(cs@ == cur.push(' ') + w && call_ensures(fits, (cs,), false));
                assert(judged_break(fits, l2.last(), first_word(w)));
            } else {
                let l2 = lines.push(cur);
                let nc = cur.push(' ') + w;
                assert(wrap@.3 == nc);
                assert(cs@ == nc && call_ensures(fits, (cs,), true));
                lemma_join_extend_last(l2, sp, sp + w);
                assert(nc =~= cur + (sp + w));
                assert(l2.update(l2.len() - 1, cur + (sp + w)) =~= lines.push(nc));
                assert(finished(wrap@.2, wrap@.3) == lines.push(nc));
                lemma_first_word_concat(cur, sp + w);
            }
        }
    }
    let res = wrap.finish();
    proof {
        assert(ws.take(ws.len() as int) =~= ws);
        let r = views(res@);
        let lines = wrap@.2;
        let cur = wrap@.3;
        assert forall|j: int| 0 <= j < res@.len() implies (#[trigger] res@[j])@.len() > 0 && (ws.contains(res@[j]@)
            || judged_fit(fits, res@[j]@)) by {
            assert(r[j] == res@[j]@);
            if j < lines.len() {
                assert(r[j] == lines[j]);
            } else {
                assert(r[j] == cur);
            }
        }
        assert forall|i: int| 0 <= i < res@.len() - 1 implies judged_break(fits, (#[trigger] res@[i])@, first_word(res@[i + 1]@)) by {
            assert(r[i] == res@[i]@);
            assert(r[i + 1] == res@[i + 1]@);
            assert(r[i] == lines[i]);
            if i + 1 < lines.len() {
                assert(r[i + 1] == lines[i + 1]);
            } else {
                assert(r[i + 1] == cur);
            }
        }
        assert forall|p: spec_fn(Seq<char>) -> bool| #[trigger] decided_by(fits, p) implies views(res@)
            == text_wrap_of(text@, p) by {
            assert(p(text@) == false);
        }
    }
    res
}

} // verus!
