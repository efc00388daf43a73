//! Lists of words in the manner of a shell.

use vstd::prelude::*;

use crate::text::{char_width, first_char, lemma_offset_step, lemma_offset_zero, split_text};

verus! {

#[derive(Debug, Clone, Copy, PartialEq, Eq, Structural)]
pub enum QuoteMode {
    Unquoted,
    SingleQuoted,
    DoubleQuoted,
}

/// The characters that part words.
pub open spec fn parts_words(ch: char) -> bool {
    ch == ' ' || ch == '\t' || ch == '\n'
}

/// A word that is being read.
pub struct WordScan {
    /// What the word holds so far.
    pub word: Seq<char>,
    /// Whether the last character read parts words. It holds before the first too.
    pub blank: bool,
    pub mode: QuoteMode,
    /// The text ahead.
    pub rest: Seq<char>,
}

impl WordScan {
    /// The scan that begins a word with `rest` ahead.
    pub open spec fn begin(rest: Seq<char>) -> WordScan {
        WordScan { word: Seq::empty(), blank: true, mode: QuoteMode::Unquoted, rest }
    }

    /// `n` characters read as a part of the word, which adds `more` to it.
    pub open spec fn read(self, n: int, more: Seq<char>, mode: QuoteMode) -> WordScan {
        WordScan { word: self.word + more, blank: false, mode, rest: self.rest.skip(n) }
    }

    /// Reads one character, and with a backslash the one that it escapes. The flag says
    /// that the word goes on.
    ///
    /// Outside quotes a backslash stands for the character after it, and with a line
    /// feed for nothing; at the end of the text it stands for itself. Single quotes keep
    /// every character. In double quotes a backslash with a line feed stands for
    /// nothing, before a character that it can escape it stands alone, and before any
    /// other character the two stand for themselves.
    pub open spec fn step(self) -> (WordScan, bool)
        recommends
            self.rest.len() > 0,
    {
        let ch = self.rest[0];
        let next = if self.rest.len() > 1 {
            Some(self.rest[1])
        } else {
            None
        };
        match self.mode {
            QuoteMode::Unquoted => if parts_words(ch) {
                (WordScan { blank: true, rest: self.rest.skip(1), ..self }, self.blank)
            } else if ch == '\\' {
                match next {
                    None => (self.read(1, seq!['\\'], self.mode), false),
                    Some(c) => (
                        self.read(
                            2,
                            if c == '\n' {
                                seq![]
                            } else {
                                seq![c]
                            },
                            self.mode,
                        ),
                        true,
                    ),
                }
            } else if ch == '\'' {
                (self.read(1, seq![], QuoteMode::SingleQuoted), true)
            } else if ch == '"' {
                (self.read(1, seq![], QuoteMode::DoubleQuoted), true)
            } else {
                (self.read(1, seq![ch], self.mode), true)
            },
            QuoteMode::SingleQuoted => if ch == '\'' {
                (self.read(1, seq![], QuoteMode::Unquoted), true)
            } else {
                (self.read(1, seq![ch], self.mode), true)
            },
            QuoteMode::DoubleQuoted => if ch == '\\' {
                match next {
                    None => (self.read(1, seq!['\\'], self.mode), true),
                    Some(c) => (
                        self.read(
                            2,
                            if c == '\n' {
                                seq![]
                            } else if c == '$' || c == '`' || c == '"' || c == '\\' {
                                seq!['\\']
                            } else {
                                seq!['\\', c]
                            },
                            self.mode,
                        ),
                        true,
                    ),
                }
            } else if ch == '"' {
                (self.read(1, seq![], QuoteMode::Unquoted), true)
            } else {
                (self.read(1, seq![ch], self.mode), true)
            },
        }
    }

    /// Reads on to the end of the word or of the text.
    pub open spec fn end(self) -> WordScan
        decreases self.rest.len(),
    {
        if self.rest.len() == 0 {
            self
        } else {
            let (after, more) = self.step();
            if more {
                after.end()
            } else {
                after
            }
        }
    }
}

/// Reads the words of a text.
pub struct SplitList<'a> {
    rest: &'a str,
    error: bool,
}

impl<'a> SplitList<'a> {
    /// The text that has not been read yet.
    pub closed spec fn rest(&self) -> Seq<char> {
        self.rest@
    }

    /// Whether the last word read ended inside quotes.
    pub closed spec fn failed(&self) -> bool {
        self.error
    }

    /// The words of `text`.
    #[must_use]
    pub fn new(text: &'a str) -> (r: Self)
        ensures
            r.rest() == text@,
            !r.failed(),
    {
        SplitList { rest: text, error: false }
    }

    /// Whether the last word read ended inside quotes.
    #[must_use]
    pub fn error(&self) -> (yes: bool)
        ensures
            yes == self.failed(),
    {
        self.error
    }

    fn next_char(&mut self) -> (r: Option<char>)
        ensures
            final(self).failed() == old(self).failed(),
            old(self).rest().len() == 0 ==> r is None && final(self).rest() == old(self).rest(),
            old(self).rest().len() > 0 ==> r == Some(old(self).rest()[0]) && final(self).rest()
                == old(self).rest().skip(1),
    {
        match first_char(self.rest) {
            None => None,
            Some(ch) => {
                let n = char_width(ch);
                proof {
                    lemma_offset_zero(self.rest@);
                    lemma_offset_step(self.rest@, 0);
                }
                self.rest = split_text(self.rest, n, Ghost(1int)).1;
                Some(ch)
            },
        }
    }

    /// Reads the next word. It is given only where a character that parts words follows
    /// it, or where the text holds nothing but such characters.
    pub fn next(&mut self) -> (r: Option<String>)
        ensures
            ({
                let end = WordScan::begin(old(self).rest()).end();
                &&& r is Some == end.blank
                &&& r is Some ==> r->0@ == end.word
                &&& final(self).rest() == end.rest
                &&& final(self).failed() == (end.mode != QuoteMode::Unquoted)
            }),
    {
        let mut result = String::new();
        let mut ws: bool = true;
        let mut mode = QuoteMode::Unquoted;
        let ghost goal = WordScan::begin(self.rest()).end();

        loop
            invariant_except_break
                goal == (WordScan { word: result@, blank: ws, mode, rest: self.rest() }).end(),
            ensures
                goal == (WordScan { word: result@, blank: ws, mode, rest: self.rest() }),
            decreases self.rest().len(),
        {
            let ghost before = WordScan { word: result@, blank: ws, mode, rest: self.rest() };
            let ch = match self.next_char() {
                None => {
                    break;
                },
                Some(ch) => ch,
            };
            let prev_ws = ws;
            ws = false;
            proof {
                assert(before.word + seq![] =~= before.word);
                assert(forall|c: char| #[trigger] before.word + seq![c] =~= before.word.push(c));
                assert(forall|c: char|
                    before.word + #[trigger] seq!['\\', c] =~= before.word.push('\\').push(c));
                assert(before.rest.len() > 1 ==> before.rest.skip(1).skip(1)
                    =~= before.rest.skip(2));
            }
            match mode {
                QuoteMode::Unquoted => {
                    if ch == ' ' || ch == '\t' || ch == '\n' {
                        ws = true;
                        if !prev_ws {
                            break;
                        }
                    } else if ch == '\\' {
                        match self.next_char() {
                            None => {
                                result.push('\\');
                                break;
                            },
                            Some(c) => {
                                if c != '\n' {
                                    result.push(c);
                                }
                            },
                        }
                    } else if ch == '\'' {
                        mode = QuoteMode::SingleQuoted;
                    } else if ch == '"' {
                        mode = QuoteMode::DoubleQuoted;
                    } else {
                        result.push(ch);
                    }
                },
                QuoteMode::SingleQuoted => {
                    if ch == '\'' {
                        mode = QuoteMode::Unquoted;
                    } else {
                        result.push(ch);
                    }
                },
                QuoteMode::DoubleQuoted => {
                    if ch == '\\' {
                        match self.next_char() {
                            None => {
                                result.push('\\');
                            },
                            Some(c) => {
                                if c == '$' || c == '`' || c == '"' || c == '\\' {
                                    result.push('\\');
                                } else if c != '\n' {
                                    result.push('\\');
                                    result.push(c);
                                }
                            },
                        }
                    } else if ch == '"' {
                        mode = QuoteMode::Unquoted;
                    } else {
                        result.push(ch);
                    }
                },
            }
        }

        self.error = mode != QuoteMode::Unquoted;
        if ws {
            Some(result)
        } else {
            None
        }
    }
}

} // verus!
