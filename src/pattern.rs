use vstd::prelude::*;
use vstd::string::StringExecFns;
use crate::error::ResolveError;
use crate::text::Span;

verus! {

#[verifier::external_type_specification]
#[verifier::external_body]
pub struct ExRegex(fancy_regex::Regex);

/// Whether the regular-expression parser accepts `pattern`.
pub uninterp spec fn compiles(pattern: Seq<char>) -> bool;

/// The parser's message for a pattern that it refuses.
pub uninterp spec fn compile_message_of(pattern: Seq<char>) -> Seq<char>;

/// The captures of every match of the regular expression `source` in `text`, left to
/// right, or `None` where the search stops on an error.
pub uninterp spec fn captures_of(source: Seq<char>, text: Seq<char>) -> Option<Seq<RawCapture>>;

/// The characters that have a meaning of their own in a regular expression.
pub open spec fn is_regex_special(c: char) -> bool {
    c == '\\' || c == '.' || c == '+' || c == '*' || c == '?' || c == '(' || c == ')' || c == '|'
        || c == '[' || c == ']' || c == '{' || c == '}' || c == '^' || c == '$' || c == '#'
}

/// One character written so that a regular expression matches it literally.
pub open spec fn quote_char(c: char) -> Seq<char> {
    if c == '\n' {
        seq!['\\', 'n']
    } else if c == '\t' {
        seq!['\\', 't']
    } else if c == '\r' {
        seq!['\\', 'r']
    } else if is_regex_special(c) {
        seq!['\\', c]
    } else {
        seq![c]
    }
}

pub open spec fn quote_all(t: Seq<char>) -> Seq<char>
    decreases t.len(),
{
    if t.len() == 0 {
        Seq::empty()
    } else {
        quote_all(t.drop_last()) + quote_char(t.last())
    }
}

/// `text` as a regular expression that matches exactly `text`: left as it is where no
/// character is special, else every character quoted.
pub open spec fn escaped_of(text: Seq<char>) -> Seq<char> {
    if exists|i: int| 0 <= i < text.len() && is_regex_special(#[trigger] text[i]) {
        quote_all(text)
    } else {
        text
    }
}

/// Relies on `fancy_regex::Regex::new`: compiles a pattern with default options; whether it
/// succeeds, and the parser's message where it does not, depend on the pattern alone.
#[verifier::external_body]
fn compile(pattern: &str) -> (r: Result<fancy_regex::Regex, String>)
    ensures
        r is Ok <==> compiles(pattern@),
        r matches Err(m) ==> m@ == compile_message_of(pattern@),
{
    fancy_regex::Regex::new(pattern).map_err(|e| e.to_string())
}

/// Relies on `fancy_regex::escape`: `text` unchanged where it holds no special character,
/// else each character quoted.
#[verifier::external_body]
fn escape_literal(text: &str) -> (r: String)
    ensures
        r@ == escaped_of(text@),
{
    fancy_regex::escape(text).into_owned()
}

/// `t` stands in `s` at character index `i`.
pub open spec fn occurs_at(s: Seq<char>, t: Seq<char>, i: int) -> bool {
    0 <= i && i + t.len() <= s.len() && s.subrange(i, i + t.len()) == t
}

/// `i` is the first index at which `t` stands in `s`.
pub open spec fn first_at(s: Seq<char>, t: Seq<char>, i: int) -> bool {
    occurs_at(s, t, i) && forall|j: int| 0 <= j < i ==> !occurs_at(s, t, j)
}

/// Relies on `str::split_once`: splits at the first occurrence of `token`.
#[verifier::external_body]
fn split_first(s: &str, token: &str) -> (r: Option<(String, String)>)
    ensures
        r is None ==> forall|i: int| !occurs_at(s@, token@, i),
        r matches Some((a, b)) ==> first_at(s@, token@, a@.len() as int) && s@ == a@ + token@
            + b@,
{
    s.split_once(token).map(|(a, b)| (a.to_string(), b.to_string()))
}

/// The capture that stands for the placeholder token.
pub open spec fn lazy_group() -> Seq<char> {
    seq!['(', '.', '*', '?', ')']
}

/// The regular expression built from a split-form pattern whose token stands at `i`.
pub open spec fn split_source(pattern: Seq<char>, token: Seq<char>, i: int) -> Seq<char> {
    escaped_of(pattern.subrange(0, i)) + lazy_group() + escaped_of(
        pattern.subrange(i + token.len(), pattern.len() as int),
    )
}

/// A compiled placeholder matcher: capture group 1 is the referenced path, an optional
/// capture group 2 the indentation.
pub struct Matcher {
    regex: fancy_regex::Regex,
    source: String,
}

impl View for Matcher {
    type V = Seq<char>;

    /// The regular expression the matcher was compiled from.
    closed spec fn view(&self) -> Seq<char> {
        self.source@
    }
}

/// The byte spans of one match: the whole match and capture groups 1 and 2, each where it
/// took part in the match.
#[derive(Clone, Copy, Debug, PartialEq, Eq, Structural)]
pub struct RawCapture {
    pub whole: Option<Span>,
    pub path: Option<Span>,
    pub indent: Option<Span>,
}

impl Matcher {
    /// Relies on `fancy_regex::Regex::captures_iter`: the matches in `text` with the byte
    /// offsets of group 0, 1 and 2, or the message of the error that stopped the search.
    /// The regex was compiled from `self@`, and the search depends on it and `text` alone.
    /// The offsets are checked by the caller.
    #[verifier::external_body]
    pub(crate) fn captures(&self, text: &str) -> (r: Result<Vec<RawCapture>, String>)
        ensures
            r is Ok <==> captures_of(self@, text@) is Some,
            r matches Ok(v) ==> v@ == captures_of(self@, text@)->0,
    {
        let span = |m: Option<fancy_regex::Match>| m.map(|m| Span { start: m.start(), end: m.end() });
        self.regex.captures_iter(text).map(
            |c| c.map(|c| RawCapture { whole: span(c.get(0)), path: span(c.get(1)), indent: span(c.get(2)) }),
        ).collect::<Result<Vec<_>, _>>().map_err(|e| e.to_string())
    }

    /// Compiles a regular expression as it is.
    pub fn from_regex(pattern: &str) -> (r: Result<Matcher, ResolveError>)
        ensures
            r is Ok <==> compiles(pattern@),
            r matches Ok(m) ==> m@ == pattern@,
            r matches Err(e) ==> e is Pattern && e->Pattern_message@ == compile_message_of(
                pattern@,
            ),
    {
        match compile(pattern) {
            Ok(regex) => Ok(Matcher { regex, source: String::from_str(pattern) }),
            Err(message) => Err(ResolveError::Pattern { message }),
        }
    }

    /// Builds a matcher from a pattern that holds `placeholder` where the path stands: the
    /// text before and after the first occurrence of the token is escaped, and a
    /// non-greedy capture stands between.
    pub fn from_split(pattern: &str, placeholder: &str) -> (r: Result<Matcher, ResolveError>)
        ensures
            (forall|i: int| !occurs_at(pattern@, placeholder@, i)) ==> (r matches Err(e)
                && e is Pattern),
            forall|i: int|
                first_at(pattern@, placeholder@, i) ==> {
                    &&& r is Ok <==> compiles(split_source(pattern@, placeholder@, i))
                    &&& r matches Ok(m) ==> m@ == split_source(pattern@, placeholder@, i)
                    &&& r matches Err(e) ==> e->Pattern_message@ == compile_message_of(
                        split_source(pattern@, placeholder@, i),
                    )
                },
            r matches Err(e) ==> e is Pattern,
    {
        match split_first(pattern, placeholder) {
            None => Err(
                ResolveError::Pattern {
                    message: String::from_str("the placeholder token does not occur in the pattern"),
                },
            ),
            Some((prefix, suffix)) => {
                let mut source = escape_literal(prefix.as_str());
                source.append("(.*?)");
                let tail = escape_literal(suffix.as_str());
                source.append(tail.as_str());
                proof {
                    reveal_strlit("(.*?)");
                    let i = prefix@.len() as int;
                    assert(pattern@.subrange(0, i) =~= prefix@);
                    assert(pattern@.subrange(i + placeholder@.len(), pattern@.len() as int)
                        =~= suffix@);
                    assert forall|j: int| first_at(pattern@, placeholder@, j) implies j == i by {
                        if j < i {
                            assert(!occurs_at(pattern@, placeholder@, j));
                        } else if j > i {
                            assert(!occurs_at(pattern@, placeholder@, i));
                        }
                    }
                    assert(source@ =~= split_source(pattern@, placeholder@, i));
                }
                match compile(source.as_str()) {
                    Ok(regex) => Ok(Matcher { regex, source }),
                    Err(message) => Err(ResolveError::Pattern { message }),
                }
            },
        }
    }
}

} // verus!
