//! The parser of named terms.
//!
//! ```text
//! term ::= "λ" name "." term | "(" term term ")" | name
//! ```
//!
//! White space and `//` comments may stand before every token. The name
//! of a lambda is the run of characters up to the next `.` or white space;
//! the name of a variable also ends at a parenthesis or a `λ`, and is not
//! empty.

use vstd::prelude::*;
use vstd::string::StringExecFns;

use crate::lambda::{NamedExpr, NamedTerm};
use crate::util::{decimal, push_char, to_decimal};

verus! {

/// The letter that opens a lambda.
pub const LAMBDA: char = '\u{3bb}';

/// ASCII white space.
pub open spec fn is_space(c: char) -> bool {
    c == ' ' || c == '\t' || c == '\n' || c == '\x0C' || c == '\r'
}

/// A character of the name of a lambda.
pub open spec fn is_binder_char(c: char) -> bool {
    c != '.' && !is_space(c)
}

/// A character of the name of a variable.
pub open spec fn is_name_char(c: char) -> bool {
    is_binder_char(c) && c != '(' && c != ')' && c != LAMBDA
}

/// A character of a name of the given kind.
pub open spec fn in_run(c: char, binder: bool) -> bool {
    if binder {
        is_binder_char(c)
    } else {
        is_name_char(c)
    }
}

/// The index behind the line that holds index `i`.
pub open spec fn after_line(s: Seq<char>, i: int) -> int
    decreases s.len() - i,
{
    if i < 0 || i >= s.len() {
        s.len() as int
    } else if s[i] == '\n' {
        i + 1
    } else {
        after_line(s, i + 1)
    }
}

/// The index of the first character at or behind `i` that is neither white
/// space nor part of a comment.
pub open spec fn skip_trivia(s: Seq<char>, i: int) -> int
    decreases s.len() - i,
{
    if i < 0 || i >= s.len() {
        i
    } else if is_space(s[i]) {
        skip_trivia(s, i + 1)
    } else if s[i] == '/' && i + 1 < s.len() && s[i + 1] == '/' {
        if i < after_line(s, i) <= s.len() {
            skip_trivia(s, after_line(s, i))
        } else {
            i
        }
    } else {
        i
    }
}

/// The index behind the run of name characters that starts at `i`.
pub open spec fn run_end(s: Seq<char>, i: int, binder: bool) -> int
    decreases s.len() - i,
{
    if i < 0 || i >= s.len() {
        i
    } else if in_run(s[i], binder) {
        run_end(s, i + 1, binder)
    } else {
        i
    }
}

/// What parsing gives: a term and the index behind it, or what was
/// expected at which index.
pub enum Parsed {
    Term(NamedTerm, int),
    Fault(Seq<char>, int),
}

/// The term that starts at index `i` of `s`.
pub open spec fn parse_at(s: Seq<char>, i: int) -> Parsed
    decreases s.len() - i,
{
    let j = skip_trivia(s, i);
    if i < 0 || j < i || j >= s.len() {
        Parsed::Fault("name"@, j)
    } else if s[j] == LAMBDA {
        let start = skip_trivia(s, j + 1);
        let end = run_end(s, start, true);
        let dot = skip_trivia(s, end);
        if j < dot < s.len() && s[dot] == '.' {
            match parse_at(s, dot + 1) {
                Parsed::Term(body, e) => Parsed::Term(
                    NamedTerm::Lam(s.subrange(start, end), Box::new(body), None),
                    e,
                ),
                Parsed::Fault(what, at) => Parsed::Fault(what, at),
            }
        } else {
            Parsed::Fault("."@, dot)
        }
    } else if s[j] == '(' {
        match parse_at(s, j + 1) {
            Parsed::Term(func, e1) => if j < e1 <= s.len() {
                match parse_at(s, e1) {
                    Parsed::Term(argm, e2) => {
                        let close = skip_trivia(s, e2);
                        if 0 <= close < s.len() && s[close] == ')' {
                            Parsed::Term(NamedTerm::App(Box::new(func), Box::new(argm), None), close + 1)
                        } else {
                            Parsed::Fault(")"@, close)
                        }
                    },
                    Parsed::Fault(what, at) => Parsed::Fault(what, at),
                }
            } else {
                Parsed::Fault("name"@, e1)
            },
            Parsed::Fault(what, at) => Parsed::Fault(what, at),
        }
    } else {
        let end = run_end(s, j, false);
        if end == j {
            Parsed::Fault("name"@, j)
        } else {
            Parsed::Term(NamedTerm::Var(s.subrange(j, end), None), end)
        }
    }
}

/// The message of a parse error.
pub open spec fn error_text(what: Seq<char>, at: int) -> Seq<char> {
    "PARSE_ERROR\n- expected: "@ + what + "\n- detected at: "@ + decimal(at as nat)
}

/// Skipping ends at or behind its start, within the text.
pub proof fn lemma_skip_trivia(s: Seq<char>, i: int)
    requires
        0 <= i <= s.len(),
    ensures
        i <= skip_trivia(s, i) <= s.len(),
    decreases s.len() - i,
{
    if i < s.len() {
        if is_space(s[i]) {
            lemma_skip_trivia(s, i + 1);
        } else if s[i] == '/' && i + 1 < s.len() && s[i + 1] == '/' {
            lemma_after_line(s, i);
            lemma_skip_trivia(s, after_line(s, i));
        }
    }
}

/// The next line starts behind the index, within the text.
pub proof fn lemma_after_line(s: Seq<char>, i: int)
    requires
        0 <= i < s.len(),
    ensures
        i < after_line(s, i) <= s.len(),
    decreases s.len() - i,
{
    if s[i] != '\n' {
        if i + 1 < s.len() {
            lemma_after_line(s, i + 1);
        } else {
            assert(after_line(s, i + 1) == s.len());
        }
    }
}

/// A parser over a text, with the index of the next character.
pub struct NamedExprParser {
    input: Vec<char>,
    index: usize,
}

impl NamedExprParser {
    /// The text.
    pub closed spec fn text(&self) -> Seq<char> {
        self.input@
    }

    /// The index of the next character.
    pub closed spec fn position(&self) -> int {
        self.index as int
    }

    /// The index is within the text.
    pub open spec fn wf(&self) -> bool {
        0 <= self.position() <= self.text().len()
    }

    /// A parser at the start of `input`.
    pub fn new(input: &str) -> (p: Self)
        ensures
            p.wf(),
            p.text() == input@,
            p.position() == 0,
    {
        let mut chars: Vec<char> = Vec::new();
        for c in it: input.chars()
            invariant
                it.seq() == input@,
                chars@ == input@.take(it.index() as int),
        {
            chars.push(c);
            assert(input@.take(it.index() + 1) =~= input@.take(it.index() as int).push(c));
        }
        assert(input@.take(input@.len() as int) =~= input@);
        NamedExprParser { input: chars, index: 0 }
    }

    /// Moves past white space and comments.
    fn skip_trivia(&mut self)
        requires
            old(self).wf(),
        ensures
            final(self).wf(),
            final(self).text() == old(self).text(),
            final(self).position() == skip_trivia(old(self).text(), old(self).position()),
            final(self).position() >= old(self).position(),
    {
        let ghost s = self.input@;
        let ghost start = self.index as int;
        proof {
            lemma_skip_trivia(s, start);
        }
        loop
            invariant
                self.input@ == s,
                0 <= start <= self.index <= s.len(),
                skip_trivia(s, self.index as int) == skip_trivia(s, start),
            ensures
                self.input@ == s,
                start <= self.index <= s.len(),
                self.index == skip_trivia(s, start),
            decreases s.len() - self.index,
        {
            if self.index >= self.input.len() {
                break ;
            }
            let c = self.input[self.index];
            if c == ' ' || c == '\t' || c == '\n' || c == '\x0C' || c == '\r' {
                self.index += 1;
            } else if c == '/' && self.index + 1 < self.input.len() && self.input[self.index + 1]
                == '/' {
                let ghost from = self.index as int;
                proof {
                    lemma_after_line(s, from);
                }
                loop
                    invariant_except_break
                        from <= self.index <= s.len(),
                        after_line(s, self.index as int) == after_line(s, from),
                    invariant
                        self.input@ == s,
                        from < s.len(),
                    ensures
                        self.input@ == s,
                        self.index == after_line(s, from),
                    decreases s.len() - self.index,
                {
                    if self.index >= self.input.len() {
                        break ;
                    }
                    if self.input[self.index] == '\n' {
                        self.index += 1;
                        break ;
                    }
                    self.index += 1;
                }
            } else {
                break ;
            }
        }
    }

    /// Takes the run of name characters at the index.
    fn take_run(&mut self, binder: bool) -> (name: String)
        requires
            old(self).wf(),
        ensures
            final(self).wf(),
            final(self).text() == old(self).text(),
            final(self).position() == run_end(old(self).text(), old(self).position(), binder),
            final(self).position() >= old(self).position(),
            name@ == old(self).text().subrange(old(self).position(), final(self).position()),
    {
        let ghost s = self.input@;
        let ghost start = self.index as int;
        let mut name = String::new();
        proof {
            assert(s.subrange(start, start) =~= Seq::<char>::empty());
        }
        while self.index < self.input.len() && in_name(self.input[self.index], binder)
            invariant
                self.input@ == s,
                0 <= start <= self.index <= s.len(),
                run_end(s, self.index as int, binder) == run_end(s, start, binder),
                name@ == s.subrange(start, self.index as int),
            decreases s.len() - self.index,
        {
            push_char(&mut name, self.input[self.index]);
            proof {
                assert(s.subrange(start, self.index + 1) =~= s.subrange(start, self.index as int).push(
                    s[self.index as int],
                ));
            }
            self.index += 1;
        }
        name
    }

    /// The message that `what` was expected at the index.
    fn expected(&self, what: &str) -> (message: String)
        ensures
            message@ == error_text(what@, self.position()),
    {
        let mut message = String::from_str("PARSE_ERROR\n- expected: ");
        message.append(what);
        message.append("\n- detected at: ");
        message.append(to_decimal(self.index).as_str());
        message
    }

    /// Parses the term at the index and moves behind it. On an error the
    /// index stays where something else was expected.
    pub fn parse(&mut self) -> (r: Result<NamedExpr, String>)
        requires
            old(self).wf(),
        ensures
            final(self).wf(),
            final(self).text() == old(self).text(),
            match parse_at(old(self).text(), old(self).position()) {
                Parsed::Term(term, end) => r matches Ok(t) && t@ == term && final(self).position()
                    == end && end > old(self).position(),
                Parsed::Fault(what, at) => r matches Err(m) && m@ == error_text(what, at)
                    && final(self).position() == at,
            },
        decreases old(self).text().len() - old(self).position(),
    {
        let ghost s = self.input@;
        let ghost i = self.index as int;
        self.skip_trivia();
        let ghost j = self.index as int;
        if self.index >= self.input.len() {
            return Err(self.expected("name"));
        }
        let c = self.input[self.index];
        if c == LAMBDA {
            self.index += 1;
            self.skip_trivia();
            let ghost start = self.index as int;
            let name = self.take_run(true);
            let ghost end = self.index as int;
            self.skip_trivia();
            if self.index < self.input.len() && self.input[self.index] == '.' {
                self.index += 1;
                match self.parse() {
                    Ok(body) => Ok(NamedExpr::Lam(name, Box::new(body), None)),
                    Err(message) => Err(message),
                }
            } else {
                Err(self.expected("."))
            }
        } else if c == '(' {
            self.index += 1;
            let func = match self.parse() {
                Ok(term) => term,
                Err(message) => {
                    return Err(message);
                },
            };
            let argm = match self.parse() {
                Ok(term) => term,
                Err(message) => {
                    return Err(message);
                },
            };
            self.skip_trivia();
            if self.index < self.input.len() && self.input[self.index] == ')' {
                self.index += 1;
                Ok(NamedExpr::App(Box::new(func), Box::new(argm), None))
            } else {
                Err(self.expected(")"))
            }
        } else {
            let start = self.index;
            let name = self.take_run(false);
            if self.index == start {
                Err(self.expected("name"))
            } else {
                Ok(NamedExpr::Var(name, None))
            }
        }
    }
}

/// Tells whether `c` belongs to a name of the given kind.
fn in_name(c: char, binder: bool) -> (b: bool)
    ensures
        b == in_run(c, binder),
{
    let plain = c != '.' && c != ' ' && c != '\t' && c != '\n' && c != '\x0C' && c != '\r';
    if binder {
        plain
    } else {
        plain && c != '(' && c != ')' && c != LAMBDA
    }
}

} // verus!
