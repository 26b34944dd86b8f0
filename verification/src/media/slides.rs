//! A slide deck leaf: paging, presenter mode, and speaker notes kept apart
//! from the slides the audience sees.
use vstd::prelude::*;
use super::{IntentQueue, LeafState, MediaIntent};
use crate::text::{chars_of, ends_with, next_line, region_ends_with, region_starts_with, starts_with, text_lines, trim_ws, trimmed, push_char};
use crate::navigation::texts;

verus! {

/// A slide of a deck: its title, if it has one, and its Markdown content.
#[derive(Clone, Debug, PartialEq, Eq)]
pub struct Slide {
    pub title: Option<String>,
    pub content: String,
}

/// The speaker note one line of a slide carries: a trimmed line of the form
/// `<!-- notes: text -->` or `<!-- note: text -->`, giving `text` trimmed.
pub open spec fn line_note(line: Seq<char>) -> Option<Seq<char>> {
    let t = trim_ws(line);
    if starts_with(t, seq!['<', '!', '-', '-']) && ends_with(t.skip(4), seq!['-', '-', '>']) {
        let inner = trim_ws(t.subrange(4, t.len() - 3));
        if starts_with(inner, seq!['n', 'o', 't', 'e', 's', ':']) {
            Some(trim_ws(inner.skip(6)))
        } else if starts_with(inner, seq!['n', 'o', 't', 'e', ':']) {
            Some(trim_ws(inner.skip(5)))
        } else {
            None
        }
    } else {
        None
    }
}

/// The notes of a list of lines, in order.
pub open spec fn notes_of(lines: Seq<Seq<char>>) -> Seq<Seq<char>>
    decreases lines.len(),
{
    if lines.len() == 0 {
        Seq::empty()
    } else {
        match line_note(lines.last()) {
            Some(n) => notes_of(lines.drop_last()).push(n),
            None => notes_of(lines.drop_last()),
        }
    }
}

/// Texts joined with line feeds between them.
pub open spec fn join_lines(xs: Seq<Seq<char>>) -> Seq<char>
    decreases xs.len(),
{
    if xs.len() == 0 {
        Seq::empty()
    } else if xs.len() == 1 {
        xs[0]
    } else {
        join_lines(xs.drop_last()) + seq!['\n'] + xs.last()
    }
}

/// The speaker notes of a slide's source: the notes of its lines, joined by
/// line feeds.
pub open spec fn slide_notes(source: Seq<char>) -> Seq<char> {
    join_lines(notes_of(text_lines(source, 0)))
}

fn line_note_exec(line: &str) -> (r: Option<String>)
    ensures
        r matches Some(n) ==> line_note(line@) == Some(n@),
        r is None ==> line_note(line@) is None,
{
    let cs = chars_of(line);
    let t = trimmed(&cs, 0, cs.len());
    proof {
        assert(cs@.subrange(0, cs@.len() as int) =~= line@);
    }
    let tc = chars_of(t.as_str());
    let m = tc.len();
    let open = vec!['<', '!', '-', '-'];
    let close = vec!['-', '-', '>'];
    if !region_starts_with(&tc, 0, m, &open) {
        proof {
            assert(tc@.subrange(0, m as int) =~= tc@);
        }
        return None;
    }
    proof {
        assert(tc@.subrange(0, m as int) =~= tc@);
        assert(open@ == seq!['<', '!', '-', '-']);
    }
    if !region_ends_with(&tc, 4, m, &close) {
        proof {
            assert(tc@.subrange(4, m as int) =~= tc@.skip(4));
        }
        return None;
    }
    proof {
        assert(tc@.subrange(4, m as int) =~= tc@.skip(4));
        assert(close@ == seq!['-', '-', '>']);
    }
    let inner = trimmed(&tc, 4, m - 3);
    let ic = chars_of(inner.as_str());
    let k = ic.len();
    let notes = vec!['n', 'o', 't', 'e', 's', ':'];
    let note = vec!['n', 'o', 't', 'e', ':'];
    proof {
        assert(ic@.subrange(0, k as int) =~= ic@);
    }
    if region_starts_with(&ic, 0, k, &notes) {
        let r = trimmed(&ic, 6, k);
        proof {
            assert(ic@.subrange(6, k as int) =~= ic@.skip(6));
        }
        Some(r)
    } else if region_starts_with(&ic, 0, k, &note) {
        let r = trimmed(&ic, 5, k);
        proof {
            assert(ic@.subrange(5, k as int) =~= ic@.skip(5));
        }
        Some(r)
    } else {
        None
    }
}

/// The speaker notes of a slide's source.
fn notes_for_slide(source: &str) -> (r: String)
    ensures
        r@ == slide_notes(source@),
{
    let cs = chars_of(source);
    let nl = vec!['\n'];
    let n = cs.len();
    let mut out = String::new();
    let mut any = false;
    let mut p: usize = 0;
    let ghost mut done: Seq<Seq<char>> = Seq::empty();
    while p < n
        invariant
            p <= n == cs@.len(),
            cs@ == source@,
            nl@ == seq!['\n'],
            text_lines(cs@, 0) == done + text_lines(cs@, p as int),
            any == (notes_of(done).len() > 0),
            out@ == join_lines(notes_of(done)),
        decreases n - p,
    {
        match next_line(&cs, &nl, p) {
            Some((t, e)) => {
                let line = crate::text::string_of(&cs, p, t);
                let ghost l = cs@.subrange(p as int, t as int);
                proof {
                    assert(done.push(l).drop_last() =~= done);
                    assert(done.push(l).last() == l);
                    assert(text_lines(cs@, 0) =~= done.push(l) + text_lines(cs@, e as int));
                }
                match line_note_exec(line.as_str()) {
                    Some(note) => {
                        if any {
                            push_char(&mut out, '\n');
                        }
                        out.append(note.as_str());
                        any = true;
                        proof {
                            let ns = notes_of(done.push(l));
                            assert(ns == notes_of(done).push(note@));
                            assert(ns.drop_last() =~= notes_of(done));
                        }
                    },
                    None => {},
                }
                proof {
                    done = done.push(l);
                }
                p = e;
            },
            None => {
                p = n;
            },
        }
    }
    proof {
        assert(text_lines(cs@, n as int) =~= Seq::<Seq<char>>::empty());
        assert(done =~= text_lines(cs@, 0));
    }
    out
}

/// `xs` padded with empty texts to length `n`, if it is shorter.
pub open spec fn padded(xs: Seq<Seq<char>>, n: int) -> Seq<Seq<char>> {
    if xs.len() >= n {
        xs
    } else {
        xs + Seq::new((n - xs.len()) as nat, |i: int| Seq::<char>::empty())
    }
}

/// A slide deck leaf.
pub struct SlidesModel {
    pub state: LeafState,
    pub slides: Vec<Slide>,
    pub current_page: usize,
    /// Whether the slide canvas is presented without document chrome.
    pub presenter_mode: bool,
    /// Speaker notes per slide, kept apart from the slides themselves so that
    /// notes never reach the audience view.
    pub presenter_notes: Vec<String>,
    /// Intents waiting for the host, oldest first.
    pub intents: IntentQueue,
}

impl SlidesModel {
    /// The intents queued and not yet taken, oldest first.
    pub closed spec fn pending(&self) -> Seq<MediaIntent> {
        self.intents@
    }

    /// A deck at its first slide, with no notes.
    pub fn new(slides: Vec<Slide>) -> (m: Self)
        ensures
            m.slides@ == slides@,
            m.current_page == 0,
            !m.presenter_mode,
            m.presenter_notes@.len() == 0,
            m.pending() == Seq::<MediaIntent>::empty(),
    {
        SlidesModel {
            state: LeafState::default(),
            slides,
            current_page: 0,
            presenter_mode: false,
            presenter_notes: Vec::new(),
            intents: IntentQueue::default(),
        }
    }

    /// A deck whose speaker notes are read from each slide's own source
    /// (see `slide_notes`).
    pub fn from_slides(slides: Vec<Slide>) -> (m: Self)
        ensures
            m.slides@ == slides@,
            m.current_page == 0,
            !m.presenter_mode,
            texts(m.presenter_notes@) == slides@.map_values(|s: Slide| slide_notes(s.content@)),
            m.pending() == Seq::<MediaIntent>::empty(),
    {
        let mut m = SlidesModel::new(slides);
        let mut notes: Vec<String> = Vec::new();
        let mut i: usize = 0;
        while i < m.slides.len()
            invariant
                i <= m.slides@.len(),
                texts(notes@) == m.slides@.map_values(|s: Slide| slide_notes(s.content@)).take(i as int),
            decreases m.slides@.len() - i,
        {
            let note = notes_for_slide(m.slides[i].content.as_str());
            let ghost before = notes@;
            notes.push(note);
            proof {
                assert(texts(notes@) =~= texts(before).push(note@));
                assert(texts(notes@) =~= m.slides@.map_values(|s: Slide| slide_notes(s.content@)).take(i + 1));
            }
            i = i + 1;
        }
        proof {
            assert(m.slides@.map_values(|s: Slide| slide_notes(s.content@)).take(i as int) =~= m.slides@.map_values(
                |s: Slide| slide_notes(s.content@),
            ));
        }
        m.presenter_notes = notes;
        m
    }

    pub fn toggle_presenter_mode(&mut self)
        ensures
            final(self).presenter_mode == !old(self).presenter_mode,
            final(self).current_page == old(self).current_page,
            final(self).presenter_notes@ == old(self).presenter_notes@,
            final(self).pending() == old(self).pending(),
    {
        self.presenter_mode = !self.presenter_mode;
    }

    /// Replaces the notes of the current slide, first padding the notes with
    /// empty ones up to it.
    pub fn set_presenter_notes(&mut self, notes: &str)
        requires
            old(self).current_page < usize::MAX,
        ensures
            texts(final(self).presenter_notes@) == padded(texts(old(self).presenter_notes@), old(self).current_page + 1).update(
                old(self).current_page as int,
                notes@,
            ),
            final(self).current_page == old(self).current_page,
            final(self).pending() == old(self).pending(),
    {
        let ghost start = texts(self.presenter_notes@);
        let cur = self.current_page;
        while self.presenter_notes.len() <= cur
            invariant
                cur == self.current_page < usize::MAX,
                texts(self.presenter_notes@) == padded(start, self.presenter_notes@.len() as int),
                self.presenter_notes@.len() >= start.len(),
                self.presenter_notes@.len() <= if start.len() > cur + 1 { start.len() as int } else { cur + 1 },
                self.pending() == old(self).pending(),
            decreases cur + 1 - self.presenter_notes@.len(),
        {
            let ghost before = self.presenter_notes@;
            self.presenter_notes.push(String::new());
            proof {
                assert(texts(self.presenter_notes@) =~= texts(before).push(Seq::<char>::empty()));
                assert(texts(self.presenter_notes@) =~= padded(start, self.presenter_notes@.len() as int));
            }
        }
        let ghost before = self.presenter_notes@;
        self.presenter_notes.set(cur, notes.to_string());
        proof {
            assert(padded(start, before.len() as int) =~= padded(start, cur + 1));
            assert(texts(self.presenter_notes@) =~= texts(before).update(cur as int, notes@));
        }
    }

    /// The 1-based position of the current slide (0 for an empty deck) and
    /// the number of slides.
    pub fn progress(&self) -> (r: (usize, usize))
        ensures
            r.1 == self.slides@.len(),
            r.0 == if self.current_page + 1 < self.slides@.len() { self.current_page + 1 } else { self.slides@.len() as int },
    {
        let n = self.slides.len();
        let next = self.current_page.saturating_add(1);
        (if next < n { next } else { n }, n)
    }

    /// The notes of the current slide, if it has any.
    pub fn current_notes(&self) -> (r: Option<&str>)
        ensures
            self.current_page < self.presenter_notes@.len() ==> (r matches Some(s) && s@ == self.presenter_notes@[self.current_page as int]@),
            self.current_page >= self.presenter_notes@.len() ==> r is None,
    {
        if self.current_page < self.presenter_notes.len() {
            Some(self.presenter_notes[self.current_page].as_str())
        } else {
            None
        }
    }

    /// Moves to the next slide, if there is one.
    pub fn next_page(&mut self)
        ensures
            old(self).current_page + 1 < old(self).slides@.len() ==> final(self).current_page == old(self).current_page + 1
                && final(self).pending() == old(self).pending().push(MediaIntent::NextPage),
            old(self).current_page + 1 >= old(self).slides@.len() ==> final(self).current_page == old(self).current_page
                && final(self).pending() == old(self).pending(),
            final(self).slides@ == old(self).slides@,
            final(self).presenter_notes@ == old(self).presenter_notes@,
    {
        let n = self.slides.len();
        if self.current_page < n && n - self.current_page > 1 {
            self.current_page = self.current_page + 1;
            self.intents.push(MediaIntent::NextPage);
        }
    }

    /// Moves to the previous slide, if there is one.
    pub fn previous_page(&mut self)
        ensures
            old(self).current_page > 0 ==> final(self).current_page == old(self).current_page - 1
                && final(self).pending() == old(self).pending().push(MediaIntent::PreviousPage),
            old(self).current_page == 0 ==> final(self).current_page == 0 && final(self).pending() == old(self).pending(),
            final(self).slides@ == old(self).slides@,
            final(self).presenter_notes@ == old(self).presenter_notes@,
    {
        if self.current_page > 0 {
            self.current_page = self.current_page - 1;
            self.intents.push(MediaIntent::PreviousPage);
        }
    }

    /// Takes the queued intents, oldest first.
    pub fn take_intents(&mut self) -> (v: Vec<MediaIntent>)
        ensures
            v@ == old(self).pending(),
            final(self).pending() == Seq::<MediaIntent>::empty(),
            final(self).current_page == old(self).current_page,
            final(self).slides@ == old(self).slides@,
    {
        self.intents.drain()
    }

    /// The current slide, if the deck has one there.
    pub fn current(&self) -> (r: Option<&Slide>)
        ensures
            self.current_page < self.slides@.len() ==> r == Some(&self.slides@[self.current_page as int]),
            self.current_page >= self.slides@.len() ==> r is None,
    {
        if self.current_page < self.slides.len() {
            Some(&self.slides[self.current_page])
        } else {
            None
        }
    }
}

/// A mountable slides leaf.
pub struct SlidesView {
    pub model: SlidesModel,
}

impl SlidesView {
    pub fn new(model: SlidesModel) -> (v: Self)
        ensures
            v.model == model,
    {
        SlidesView { model }
    }
}

} // verus!
