use vstd::prelude::*;

verus! {

/// Which part of the interface receives the keys.
#[derive(Debug, Clone, Copy, PartialEq, Eq, Structural)]
pub enum SelectionMode {
    TreeBrowsing,
    SearchQueryEditing,
    ObjectInfoInspecting,
    HelpScreen,
}

/// A key press, as far as the mode logic distinguishes keys.
#[derive(Debug, Clone, Copy, PartialEq, Eq, Structural)]
pub enum Key {
    Char(char),
    /// Control together with a character.
    Ctrl(char),
    Left,
    Right,
    Up,
    Down,
    PageUp,
    PageDown,
    Home,
    End,
    Esc,
    Enter,
    Other,
}

/// What follows a key press.
#[derive(Debug, Clone, Copy, PartialEq, Eq, Structural)]
pub enum KeyOutcome {
    /// Leave the program.
    Quit,
    /// Switch to this mode.
    Switch(SelectionMode),
    /// The key is for the tree browser (moving, opening, toggling the log).
    Tree,
    /// The key edits the search query.
    Search,
    /// The key is for the object information pane (scrolling, toggling the log).
    ObjectInfo,
    /// Nothing happens.
    Ignore,
}

/// The mode logic of a key press in `mode`.
pub open spec fn key_outcome(mode: SelectionMode, key: Key) -> KeyOutcome {
    if key == Key::Ctrl('c') {
        KeyOutcome::Quit
    } else {
        match mode {
            SelectionMode::TreeBrowsing => if key == Key::Char('q') {
                KeyOutcome::Quit
            } else if key == Key::Char('/') {
                KeyOutcome::Switch(SelectionMode::SearchQueryEditing)
            } else if key == Key::Right || key == Key::Char('l') {
                KeyOutcome::Switch(SelectionMode::ObjectInfoInspecting)
            } else if key == Key::Char('?') {
                KeyOutcome::Switch(SelectionMode::HelpScreen)
            } else {
                KeyOutcome::Tree
            },
            SelectionMode::SearchQueryEditing => if key == Key::Esc || key == Key::Enter {
                KeyOutcome::Switch(SelectionMode::TreeBrowsing)
            } else {
                KeyOutcome::Search
            },
            SelectionMode::ObjectInfoInspecting => if key == Key::Char('q') {
                KeyOutcome::Quit
            } else if key == Key::Char('/') {
                KeyOutcome::Switch(SelectionMode::SearchQueryEditing)
            } else if key == Key::Left || key == Key::Char('h') {
                KeyOutcome::Switch(SelectionMode::TreeBrowsing)
            } else if key == Key::Char('?') {
                KeyOutcome::Switch(SelectionMode::HelpScreen)
            } else {
                KeyOutcome::ObjectInfo
            },
            SelectionMode::HelpScreen => if key == Key::Esc || key == Key::Enter || key
                == Key::Char('q') || key == Key::Char('?') {
                KeyOutcome::Switch(SelectionMode::TreeBrowsing)
            } else {
                KeyOutcome::Ignore
            },
        }
    }
}

/// Decides what a key press does in `mode`.
pub fn on_key(mode: SelectionMode, key: Key) -> (r: KeyOutcome)
    ensures
        r == key_outcome(mode, key),
{
    if key == Key::Ctrl('c') {
        return KeyOutcome::Quit;
    }
    match mode {
        SelectionMode::TreeBrowsing => {
            if key == Key::Char('q') {
                KeyOutcome::Quit
            } else if key == Key::Char('/') {
                KeyOutcome::Switch(SelectionMode::SearchQueryEditing)
            } else if key == Key::Right || key == Key::Char('l') {
                KeyOutcome::Switch(SelectionMode::ObjectInfoInspecting)
            } else if key == Key::Char('?') {
                KeyOutcome::Switch(SelectionMode::HelpScreen)
            } else {
                KeyOutcome::Tree
            }
        },
        SelectionMode::SearchQueryEditing => {
            if key == Key::Esc || key == Key::Enter {
                KeyOutcome::Switch(SelectionMode::TreeBrowsing)
            } else {
                KeyOutcome::Search
            }
        },
        SelectionMode::ObjectInfoInspecting => {
            if key == Key::Char('q') {
                KeyOutcome::Quit
            } else if key == Key::Char('/') {
                KeyOutcome::Switch(SelectionMode::SearchQueryEditing)
            } else if key == Key::Left || key == Key::Char('h') {
                KeyOutcome::Switch(SelectionMode::TreeBrowsing)
            } else if key == Key::Char('?') {
                KeyOutcome::Switch(SelectionMode::HelpScreen)
            } else {
                KeyOutcome::ObjectInfo
            }
        },
        SelectionMode::HelpScreen => {
            if key == Key::Esc || key == Key::Enter || key == Key::Char('q') || key == Key::Char(
                '?',
            ) {
                KeyOutcome::Switch(SelectionMode::TreeBrowsing)
            } else {
                KeyOutcome::Ignore
            }
        },
    }
}

/// How far a page key scrolls the information pane.
pub const PAGE_LINES: u16 = 50;

/// The scroll offset of the information pane after `key`: a line or a page up or down,
/// saturating, or to either end. Other keys leave it.
pub open spec fn scrolled(offset: u16, key: Key) -> u16 {
    if key == Key::Up || key == Key::Char('k') {
        if offset >= 1 {
            (offset - 1) as u16
        } else {
            0
        }
    } else if key == Key::Down || key == Key::Char('j') {
        if offset < u16::MAX {
            (offset + 1) as u16
        } else {
            u16::MAX
        }
    } else if key == Key::PageUp {
        if offset >= 50 {
            (offset - 50) as u16
        } else {
            0
        }
    } else if key == Key::PageDown {
        if offset <= u16::MAX - 50 {
            (offset + 50) as u16
        } else {
            u16::MAX
        }
    } else if key == Key::End {
        u16::MAX
    } else if key == Key::Home {
        0
    } else {
        offset
    }
}

/// Applies `key` to the scroll offset of the information pane.
pub fn scroll_object_info(offset: u16, key: Key) -> (r: u16)
    ensures
        r == scrolled(offset, key),
{
    if key == Key::Up || key == Key::Char('k') {
        offset.saturating_sub(1)
    } else if key == Key::Down || key == Key::Char('j') {
        offset.saturating_add(1)
    } else if key == Key::PageUp {
        offset.saturating_sub(PAGE_LINES)
    } else if key == Key::PageDown {
        offset.saturating_add(PAGE_LINES)
    } else if key == Key::End {
        u16::MAX
    } else if key == Key::Home {
        0
    } else {
        offset
    }
}

/// The characters with the Unicode `White_Space` property.
pub open spec fn white_space(c: char) -> bool {
    ('\u{9}' <= c && c <= '\u{d}') || c == ' ' || c == '\u{85}' || c == '\u{a0}' || c
        == '\u{1680}' || ('\u{2000}' <= c && c <= '\u{200a}') || c == '\u{2028}' || c
        == '\u{2029}' || c == '\u{202f}' || c == '\u{205f}' || c == '\u{3000}'
}

/// Whether `c` is white space, as `char::is_whitespace` decides.
pub fn is_white_space(c: char) -> (r: bool)
    ensures
        r == white_space(c),
{
    ('\u{9}' <= c && c <= '\u{d}') || c == ' ' || c == '\u{85}' || c == '\u{a0}' || c
        == '\u{1680}' || ('\u{2000}' <= c && c <= '\u{200a}') || c == '\u{2028}' || c
        == '\u{2029}' || c == '\u{202f}' || c == '\u{205f}' || c == '\u{3000}'
}

/// Where a move one word back from the end of `s` stops: before the last white space
/// character, or at the start when there is none.
pub open spec fn word_start(s: Seq<char>) -> nat
    decreases s.len(),
{
    if s.len() == 0 {
        0
    } else if white_space(s.last()) {
        (s.len() - 1) as nat
    } else {
        word_start(s.drop_last())
    }
}

proof fn lemma_word_start_le(s: Seq<char>)
    ensures
        word_start(s) <= s.len(),
    decreases s.len(),
{
    if s.len() > 0 {
        lemma_word_start_le(s.drop_last());
    }
}

/// The search query being edited: the text left of the cursor, and the text right of it
/// stored reversed, so that moving the cursor moves one character between the two.
pub struct SearchQuery {
    pub left: Vec<char>,
    pub right_reversed: Vec<char>,
}

impl SearchQuery {
    /// The whole query.
    pub open spec fn text(&self) -> Seq<char> {
        self.left@ + self.right_reversed@.reverse()
    }

    /// The cursor's position, in characters.
    pub open spec fn cursor(&self) -> nat {
        self.left@.len()
    }

    /// An empty query.
    pub fn new() -> (r: Self)
        ensures
            r.text().len() == 0,
            r.cursor() == 0,
    {
        SearchQuery { left: Vec::new(), right_reversed: Vec::new() }
    }

    /// Inserts `c` at the cursor.
    pub fn insert(&mut self, c: char)
        ensures
            final(self).left@ == old(self).left@.push(c),
            final(self).right_reversed@ == old(self).right_reversed@,
    {
        self.left.push(c);
    }

    /// Moves the cursor one character left; the text is unchanged.
    pub fn move_left(&mut self)
        ensures
            final(self).text() == old(self).text(),
            old(self).cursor() > 0 ==> final(self).cursor() == old(self).cursor() - 1,
            old(self).cursor() == 0 ==> final(self).cursor() == 0,
    {
        match self.left.pop() {
            Some(c) => {
                let ghost r0 = self.right_reversed@;
                self.right_reversed.push(c);
                proof {
                    assert(r0.push(c).reverse() =~= seq![c] + r0.reverse());
                    assert(old(self).left@ =~= self.left@.push(c));
                    assert(final(self).text() =~= old(self).text());
                }
            },
            None => {},
        }
    }

    /// Moves the cursor one character right; the text is unchanged.
    pub fn move_right(&mut self)
        ensures
            final(self).text() == old(self).text(),
            old(self).cursor() < old(self).text().len() ==> final(self).cursor() == old(
                self,
            ).cursor() + 1,
            old(self).cursor() == old(self).text().len() ==> final(self).cursor() == old(
                self,
            ).cursor(),
    {
        match self.right_reversed.pop() {
            Some(c) => {
                let ghost r1 = self.right_reversed@;
                self.left.push(c);
                proof {
                    assert(old(self).right_reversed@ =~= r1.push(c));
                    assert(r1.push(c).reverse() =~= seq![c] + r1.reverse());
                    assert(final(self).text() =~= old(self).text());
                }
            },
            None => {},
        }
    }

    /// Moves the cursor back past the previous white space character (or to the start);
    /// the text is unchanged.
    pub fn move_word_left(&mut self)
        ensures
            final(self).text() == old(self).text(),
            final(self).left@ == old(self).left@.subrange(0, word_start(old(self).left@) as int),
    {
        let ghost s0 = self.left@;
        proof {
            assert(s0.subrange(0, s0.len() as int) =~= s0);
        }
        loop
            invariant
                self.text() == old(self).text(),
                word_start(self.left@) == word_start(s0),
                s0 == old(self).left@,
                self.left@.len() <= s0.len(),
                self.left@ == s0.subrange(0, self.left@.len() as int),
            decreases self.left@.len(),
        {
            let ghost l0 = self.left@;
            match self.left.pop() {
                Some(c) => {
                    let ghost r0 = self.right_reversed@;
                    self.right_reversed.push(c);
                    proof {
                        assert(r0.push(c).reverse() =~= seq![c] + r0.reverse());
                        assert(l0 =~= self.left@.push(c));
                        assert(self.text() =~= old(self).text());
                        assert(self.left@ =~= l0.drop_last());
                        assert(self.left@ =~= s0.subrange(0, self.left@.len() as int));
                        lemma_word_start_le(self.left@);
                    }
                    if is_white_space(c) {
                        return;
                    }
                },
                None => {
                    return;
                },
            }
        }
    }

    /// Moves the cursor forward past the next white space character (or to the end); the
    /// text is unchanged.
    pub fn move_word_right(&mut self)
        ensures
            final(self).text() == old(self).text(),
            final(self).right_reversed@ == old(self).right_reversed@.subrange(
                0,
                word_start(old(self).right_reversed@) as int,
            ),
    {
        let ghost s0 = self.right_reversed@;
        proof {
            assert(s0.subrange(0, s0.len() as int) =~= s0);
        }
        loop
            invariant
                self.text() == old(self).text(),
                word_start(self.right_reversed@) == word_start(s0),
                s0 == old(self).right_reversed@,
                self.right_reversed@.len() <= s0.len(),
                self.right_reversed@ == s0.subrange(0, self.right_reversed@.len() as int),
            decreases self.right_reversed@.len(),
        {
            let ghost r0 = self.right_reversed@;
            match self.right_reversed.pop() {
                Some(c) => {
                    let ghost r1 = self.right_reversed@;
                    self.left.push(c);
                    proof {
                        assert(r0 =~= r1.push(c));
                        assert(r1.push(c).reverse() =~= seq![c] + r1.reverse());
                        assert(self.text() =~= old(self).text());
                        assert(r1 =~= r0.drop_last());
                        assert(r1 =~= s0.subrange(0, r1.len() as int));
                        lemma_word_start_le(r1);
                    }
                    if is_white_space(c) {
                        return;
                    }
                },
                None => {
                    return;
                },
            }
        }
    }

    /// Deletes the character left of the cursor, if any.
    pub fn backspace(&mut self)
        ensures
            old(self).left@.len() > 0 ==> final(self).left@ == old(self).left@.drop_last(),
            old(self).left@.len() == 0 ==> final(self).left@ == old(self).left@,
            final(self).right_reversed@ == old(self).right_reversed@,
    {
        self.left.pop();
    }

    /// Deletes the character right of the cursor, if any.
    pub fn delete(&mut self)
        ensures
            final(self).left@ == old(self).left@,
            old(self).right_reversed@.len() > 0 ==> final(self).right_reversed@ == old(
                self,
            ).right_reversed@.drop_last(),
            old(self).right_reversed@.len() == 0 ==> final(self).right_reversed@ == old(
                self,
            ).right_reversed@,
    {
        self.right_reversed.pop();
    }

    /// The whole query and the cursor's position.
    pub fn search_query_and_cursor(&self) -> (r: (String, usize))
        ensures
            r.0@ == self.text(),
            r.1 == self.cursor(),
    {
        let mut s = String::new();
        let mut i: usize = 0;
        while i < self.left.len()
            invariant
                i <= self.left@.len(),
                s@ == self.left@.subrange(0, i as int),
            decreases self.left@.len() - i,
        {
            crate::num_utils::push_char(&mut s, self.left[i]);
            proof {
                assert(self.left@.subrange(0, i as int + 1) =~= self.left@.subrange(0, i as int).push(
                    self.left@[i as int],
                ));
            }
            i = i + 1;
        }
        let ghost rr = self.right_reversed@.reverse();
        let mut j: usize = self.right_reversed.len();
        proof {
            assert(self.left@.subrange(0, self.left@.len() as int) =~= self.left@);
        }
        while j > 0
            invariant
                j <= self.right_reversed@.len(),
                rr == self.right_reversed@.reverse(),
                s@ == self.left@ + rr.subrange(0, (self.right_reversed@.len() - j) as int),
            decreases j,
        {
            j = j - 1;
            crate::num_utils::push_char(&mut s, self.right_reversed[j]);
            proof {
                let k = (self.right_reversed@.len() - j) as int;
                assert(rr[k - 1] == self.right_reversed@[j as int]);
                assert(rr.subrange(0, k) =~= rr.subrange(0, k - 1).push(rr[k - 1]));
            }
        }
        proof {
            assert(rr.subrange(0, rr.len() as int) =~= rr);
        }
        (s, self.left.len())
    }
}

} // verus!
