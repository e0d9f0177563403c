//! How deeply a TOML text nests its values.
//!
//! A reader that follows nested values by recursion needs a bound on the
//! nesting before it starts. Values are nested by brackets and braces, and
//! tables by the dots in a key. The bound is found by one pass over the text
//! that counts the brackets and braces that are open and the dots that stand
//! together, and passes over what stands in strings and comments.

use vstd::prelude::*;

verus! {

/// Where the pass over a text is.
#[derive(Clone, Copy, Debug, PartialEq, Eq, Structural)]
pub enum Lexing {
    /// Between the values.
    Code,
    /// In a comment, up to the end of the line.
    Comment,
    /// In a string that ends with its line, behind the given quote.
    Line { quote: char, escapes: bool },
    /// In a string that runs over lines, behind three of the given quote.
    Lines { quote: char, escapes: bool },
}

/// The pass at one place of a text: the place, where the lexing is, how many
/// brackets are open, and how many dots stood since the last character that
/// ends a key.
pub struct Pass {
    pub at: int,
    pub lexing: Lexing,
    pub open: int,
    pub dots: int,
}

impl Pass {
    /// The greater of the two counts.
    pub open spec fn height(self) -> int {
        if self.open > self.dots {
            self.open
        } else {
            self.dots
        }
    }
}

/// Whether a character ends a key: no key runs across it.
pub open spec fn ends_key(c: char) -> bool {
    c == ',' || c == '=' || c == '\n' || c == '[' || c == ']' || c == '{' || c == '}'
}

/// Whether three of `quote` stand at the place `at`.
pub open spec fn triple(text: Seq<char>, at: int, quote: char) -> bool {
    at + 2 < text.len() && text[at] == quote && text[at + 1] == quote && text[at + 2] == quote
}

/// How many quotes end a string that runs over lines, where three of `quote`
/// stand at the place `at`: the three, and up to two more that stand behind
/// them and belong to the text.
pub open spec fn closing(text: Seq<char>, at: int, quote: char) -> int {
    if at + 3 < text.len() && text[at + 3] == quote {
        if at + 4 < text.len() && text[at + 4] == quote {
            5
        } else {
            4
        }
    } else {
        3
    }
}

/// The pass after the character at its place was taken in.
pub open spec fn stepped(text: Seq<char>, pass: Pass) -> Pass {
    let c = text[pass.at];
    let next = Pass { at: pass.at + 1, ..pass };
    match pass.lexing {
        Lexing::Code => if c == '#' {
            Pass { lexing: Lexing::Comment, ..next }
        } else if c == '"' || c == '\'' {
            if triple(text, pass.at, c) {
                Pass { at: pass.at + 3, lexing: Lexing::Lines { quote: c, escapes: c == '"' }, ..pass }
            } else {
                Pass { lexing: Lexing::Line { quote: c, escapes: c == '"' }, ..next }
            }
        } else if c == '[' || c == '{' {
            Pass { open: pass.open + 1, dots: 0, ..next }
        } else if (c == ']' || c == '}') && pass.open > 0 {
            Pass { open: pass.open - 1, dots: 0, ..next }
        } else if ends_key(c) {
            Pass { dots: 0, ..next }
        } else if c == '.' {
            Pass { dots: pass.dots + 1, ..next }
        } else {
            next
        },
        Lexing::Comment => if c == '\n' {
            Pass { lexing: Lexing::Code, dots: 0, ..next }
        } else {
            next
        },
        Lexing::Line { quote, escapes } => if c == '\n' || c == quote {
            Pass { lexing: Lexing::Code, ..next }
        } else if escapes && c == '\\' && pass.at + 1 < text.len() && text[pass.at + 1] != '\n' {
            Pass { at: pass.at + 2, ..pass }
        } else {
            next
        },
        Lexing::Lines { quote, escapes } => if triple(text, pass.at, quote) {
            Pass { at: pass.at + closing(text, pass.at, quote), lexing: Lexing::Code, ..pass }
        } else if escapes && c == '\\' && pass.at + 1 < text.len() {
            Pass { at: pass.at + 2, ..pass }
        } else {
            next
        },
    }
}

/// The greatest count from `pass` on, and `most` where that is more.
pub open spec fn deepest_from(text: Seq<char>, pass: Pass, most: int) -> int
    decreases text.len() - pass.at,
{
    if pass.at < 0 || pass.at >= text.len() {
        most
    } else {
        let after = stepped(text, pass);
        deepest_from(
            text,
            after,
            if after.height() > most {
                after.height()
            } else {
                most
            },
        )
    }
}

/// The most brackets and braces that are open at once in `text`, or the most
/// dots that stand in one key where that is more; both outside of strings
/// and comments.
pub open spec fn deepest(text: Seq<char>) -> int {
    deepest_from(text, Pass { at: 0, lexing: Lexing::Code, open: 0, dots: 0 }, 0)
}

proof fn lemma_deepest_is_at_least(text: Seq<char>, pass: Pass, most: int)
    ensures
        deepest_from(text, pass, most) >= most,
    decreases text.len() - pass.at,
{
    if 0 <= pass.at < text.len() {
        let after = stepped(text, pass);
        lemma_deepest_is_at_least(
            text,
            after,
            if after.height() > most {
                after.height()
            } else {
                most
            },
        );
    }
}

proof fn lemma_deepest_with_more(text: Seq<char>, pass: Pass, less: int, more: int)
    requires
        less <= more,
    ensures
        deepest_from(text, pass, more) == if deepest_from(text, pass, less) > more {
            deepest_from(text, pass, less)
        } else {
            more
        },
    decreases text.len() - pass.at,
{
    if 0 <= pass.at < text.len() {
        let after = stepped(text, pass);
        let less_after = if after.height() > less {
            after.height()
        } else {
            less
        };
        let more_after = if after.height() > more {
            after.height()
        } else {
            more
        };
        lemma_deepest_with_more(text, after, less_after, more_after);
        lemma_deepest_is_at_least(text, after, less_after);
    }
}

fn is_triple(text: &Vec<char>, at: usize, quote: char) -> (yes: bool)
    requires
        at < text@.len(),
    ensures
        yes == triple(text@, at as int, quote),
{
    text.len() - at > 2 && text[at] == quote && text[at + 1] == quote && text[at + 2] == quote
}

/// Whether `text` nests within `limit`: at most `limit` brackets and braces
/// are open at once, and at most `limit` dots stand in one key.
pub fn nests_within(text: &Vec<char>, limit: usize) -> (within: bool)
    ensures
        within == (deepest(text@) <= limit),
{
    let mut at: usize = 0;
    let mut lexing = Lexing::Code;
    let mut open: usize = 0;
    let mut dots: usize = 0;
    proof {
        lemma_deepest_with_more(
            text@,
            Pass { at: 0, lexing: Lexing::Code, open: 0, dots: 0 },
            0,
            limit as int,
        );
    }
    while at < text.len()
        invariant
            at <= text@.len() + 4,
            open <= limit,
            dots <= limit,
            deepest_from(
                text@,
                Pass { at: at as int, lexing, open: open as int, dots: dots as int },
                limit as int,
            ) <= limit <==> deepest(text@) <= limit,
        decreases text@.len() + 4 - at,
    {
        let ghost pass = Pass { at: at as int, lexing, open: open as int, dots: dots as int };
        let ghost after = stepped(text@, pass);
        let c = text[at];
        match lexing {
            Lexing::Code => {
                if c == '#' {
                    lexing = Lexing::Comment;
                    at += 1;
                } else if c == '"' || c == '\'' {
                    if is_triple(text, at, c) {
                        lexing = Lexing::Lines { quote: c, escapes: c == '"' };
                        at += 3;
                    } else {
                        lexing = Lexing::Line { quote: c, escapes: c == '"' };
                        at += 1;
                    }
                } else if c == '[' || c == '{' {
                    if open == limit {
                        proof {
                            lemma_deepest_is_at_least(text@, after, after.height());
                        }
                        return false;
                    }
                    open += 1;
                    dots = 0;
                    at += 1;
                } else if (c == ']' || c == '}') && open > 0 {
                    open -= 1;
                    dots = 0;
                    at += 1;
                } else if c == ',' || c == '=' || c == '\n' || c == ']' || c == '}' {
                    dots = 0;
                    at += 1;
                } else if c == '.' {
                    if dots == limit {
                        proof {
                            lemma_deepest_is_at_least(text@, after, after.height());
                        }
                        return false;
                    }
                    dots += 1;
                    at += 1;
                } else {
                    at += 1;
                }
            },
            Lexing::Comment => {
                if c == '\n' {
                    lexing = Lexing::Code;
                    dots = 0;
                }
                at += 1;
            },
            Lexing::Line { quote, escapes } => {
                if c == '\n' || c == quote {
                    lexing = Lexing::Code;
                    at += 1;
                } else if escapes && c == '\\' && text.len() - at > 1 && text[at + 1] != '\n' {
                    at += 2;
                } else {
                    at += 1;
                }
            },
            Lexing::Lines { quote, escapes } => {
                if is_triple(text, at, quote) {
                    lexing = Lexing::Code;
                    if text.len() - at > 3 && text[at + 3] == quote {
                        if text.len() - at > 4 && text[at + 4] == quote {
                            at += 5;
                        } else {
                            at += 4;
                        }
                    } else {
                        at += 3;
                    }
                } else if escapes && c == '\\' && text.len() - at > 1 {
                    at += 2;
                } else {
                    at += 1;
                }
            },
        }
        assert(after == Pass { at: at as int, lexing, open: open as int, dots: dots as int });
    }
    true
}

} // verus!
