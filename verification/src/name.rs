use vstd::prelude::*;
use vstd::string::StringExecFns;

verus! {

/// What is known about a function for display: where it was defined and,
/// if the host could tell, under which name it was called.
#[derive(Clone, Debug, PartialEq, Eq, Hash)]
pub struct FunctionName {
    /// The declared name, if the host found one.
    pub name: Option<String>,
    /// How the name was found: global, local, method, field, ...
    pub function_type: Option<String>,
    /// A short description of the defining source.
    pub source: String,
    /// The line of the definition, where there is one.
    pub line: Option<usize>,
    /// `main` for a top-level chunk, else the language the function is written in.
    pub domain: String,
}

/// The character of a single decimal digit.
pub open spec fn digit_char(d: nat) -> char {
    if d == 0 {
        '0'
    } else if d == 1 {
        '1'
    } else if d == 2 {
        '2'
    } else if d == 3 {
        '3'
    } else if d == 4 {
        '4'
    } else if d == 5 {
        '5'
    } else if d == 6 {
        '6'
    } else if d == 7 {
        '7'
    } else if d == 8 {
        '8'
    } else {
        '9'
    }
}

/// The decimal numeral of `n`, without sign or leading zeros.
pub open spec fn decimal_digits(n: nat) -> Seq<char>
    decreases n,
{
    if n < 10 {
        seq![digit_char(n)]
    } else {
        decimal_digits(n / 10).push(digit_char(n % 10))
    }
}

/// `acc` followed by the bracketed location: the source and, after a colon,
/// the line where there is one.
pub open spec fn with_location(acc: Seq<char>, source: Seq<char>, line: Option<usize>) -> Seq<
    char,
> {
    let opened = acc + "("@ + source;
    let numbered = match line {
        Some(l) => opened + ":"@ + decimal_digits(l as nat),
        None => opened,
    };
    numbered + ")"@
}

/// The one-character string of the decimal digit `d`.
fn digit_str(d: usize) -> (s: &'static str)
    requires
        d < 10,
    ensures
        s@ == seq![digit_char(d as nat)],
{
    proof {
        reveal_strlit("0");
        reveal_strlit("1");
        reveal_strlit("2");
        reveal_strlit("3");
        reveal_strlit("4");
        reveal_strlit("5");
        reveal_strlit("6");
        reveal_strlit("7");
        reveal_strlit("8");
        reveal_strlit("9");
    }
    let s = if d == 0 {
        "0"
    } else if d == 1 {
        "1"
    } else if d == 2 {
        "2"
    } else if d == 3 {
        "3"
    } else if d == 4 {
        "4"
    } else if d == 5 {
        "5"
    } else if d == 6 {
        "6"
    } else if d == 7 {
        "7"
    } else if d == 8 {
        "8"
    } else {
        "9"
    };
    assert(s@ =~= seq![digit_char(d as nat)]);
    s
}

/// Appends the decimal numeral of `n` to `out`.
pub fn push_decimal(out: &mut String, n: usize)
    ensures
        final(out)@ == old(out)@ + decimal_digits(n as nat),
    decreases n,
{
    if n >= 10 {
        push_decimal(out, n / 10);
    }
    out.append(digit_str(n % 10));
    assert(final(out)@ =~= old(out)@ + decimal_digits(n as nat));
}

impl FunctionName {
    /// Builds the name from what the host's debug record holds: a missing
    /// name and an empty kind are absent, and so is the line where the
    /// record gives -1 for it.
    pub fn fill_from(
        name: Option<String>,
        name_what: String,
        short_src: String,
        line_defined: i32,
        what: String,
    ) -> (n: Self)
        ensures
            n.name == name,
            n.function_type == (if name_what@.len() == 0 {
                None
            } else {
                Some(name_what)
            }),
            n.source == short_src,
            n.line == (if line_defined == -1 {
                None
            } else {
                Some(line_defined as usize)
            }),
            n.domain == what,
    {
        let function_type = if name_what.as_str().is_empty() {
            None
        } else {
            Some(name_what)
        };
        let line = if line_defined == -1 {
            None
        } else {
            Some(#[verifier::truncate] (line_defined as usize))
        };
        FunctionName { name, function_type, source: short_src, line, domain: what }
    }

    /// Whether this names a top-level chunk.
    pub open spec fn is_main(&self) -> bool {
        self.domain@ == "main"@
    }

    /// The label shown for this function.
    pub open spec fn rendered(&self) -> Seq<char> {
        if self.is_main() {
            with_location("main chunk of "@ + self.source@ + " "@, self.source@, self.line)
        } else {
            let anon = match self.name {
                Some(_) => Seq::<char>::empty(),
                None => "anonymous "@,
            };
            let kinded = match self.function_type {
                Some(t) => anon + t@ + " "@,
                None => anon,
            };
            let domained = kinded + self.domain@ + " "@;
            let named = match self.name {
                Some(n) => domained + "function "@ + n@ + " "@,
                None => domained + "function "@,
            };
            with_location(named, self.source@, self.line)
        }
    }

    fn push_location(&self, out: &mut String)
        ensures
            final(out)@ == with_location(old(out)@, self.source@, self.line),
    {
        out.append("(");
        out.append(self.source.as_str());
        if let Some(l) = self.line {
            out.append(":");
            push_decimal(out, l);
        }
        out.append(")");
    }

    /// Renders the label: `main chunk of <source> (<source>[:<line>])` for a
    /// top-level chunk, else `[anonymous ][<kind> ]<domain> function [<name> ](<source>[:<line>])`.
    pub fn render(&self) -> (s: String)
        ensures
            s@ == self.rendered(),
    {
        let main = String::from_str("main");
        let mut out = String::new();
        if self.domain == main {
            out.append("main chunk of ");
            out.append(self.source.as_str());
            out.append(" ");
            self.push_location(&mut out);
        } else {
            if self.name.is_none() {
                out.append("anonymous ");
            }
            if let Some(t) = &self.function_type {
                out.append(t.as_str());
                out.append(" ");
            }
            out.append(self.domain.as_str());
            out.append(" ");
            out.append("function ");
            if let Some(n) = &self.name {
                out.append(n.as_str());
                out.append(" ");
            }
            self.push_location(&mut out);
        }
        out
    }
}

/// The label of an entry: the rendered name, or the empty string where the
/// name was never resolved.
pub open spec fn label_of(name: Option<FunctionName>) -> Seq<char> {
    match name {
        Some(n) => n.rendered(),
        None => Seq::<char>::empty(),
    }
}

/// Renders the label of an entry's name; an unresolved name gives the empty string.
pub fn label(name: &Option<FunctionName>) -> (s: String)
    ensures
        s@ == label_of(*name),
{
    match name {
        Some(n) => n.render(),
        None => String::new(),
    }
}

} // verus!
