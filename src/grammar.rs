//! The meaning of a parse: what each grammar rule consumes from the text
//! and what it yields. Positions are character indices; a rule that
//! succeeds reports how many characters it consumed from where it started.
use vstd::prelude::*;
use crate::error::Error;
use crate::number::number_literal;
use crate::value::JsonTree;

verus! {

/// The character at `i`, or nothing past the end.
pub open spec fn char_at(s: Seq<char>, i: int) -> Option<char> {
    if 0 <= i < s.len() {
        Some(s[i])
    } else {
        None
    }
}

/// The Unicode `White_Space` property.
pub open spec fn is_white_space(c: char) -> bool {
    let u = c as u32;
    (0x09 <= u <= 0x0d) || u == 0x20 || u == 0x85 || u == 0xa0 || u == 0x1680 || (0x2000 <= u
        <= 0x200a) || u == 0x2028 || u == 0x2029 || u == 0x202f || u == 0x205f || u == 0x3000
}

pub open spec fn is_digit(c: char) -> bool {
    '0' <= c <= '9'
}

/// The characters that may follow a backslash in a string.
pub open spec fn is_escape_char(c: char) -> bool {
    c == '"' || c == '\\' || c == '/' || c == 'b' || c == 'f' || c == 'n' || c == 'r' || c == 't'
        || c == 'u'
}

/// How many characters of text remain from `i` on.
pub open spec fn dist(s: Seq<char>, i: nat) -> nat {
    if i < s.len() {
        (s.len() - i) as nat
    } else {
        0
    }
}

/// The length of the run of whitespace that starts at `i`.
pub open spec fn ws_len(s: Seq<char>, i: nat) -> nat
    decreases s.len() - i,
{
    if i < s.len() && is_white_space(s[i as int]) {
        1 + ws_len(s, i + 1)
    } else {
        0
    }
}

/// One if `c` stands at `i`, else zero: a token that is taken when present.
pub open spec fn opt_len(s: Seq<char>, i: nat, c: char) -> nat {
    if char_at(s, i as int) == Some(c) {
        1
    } else {
        0
    }
}

/// The length of a string body that starts at `j`, up to (not including)
/// its closing quote.
pub open spec fn string_body_len(s: Seq<char>, j: nat) -> Result<nat, Error>
    decreases s.len() - j,
{
    if j >= s.len() {
        Err(Error::UnterminatedString)
    } else {
        let c = s[j as int];
        if c == '\\' {
            if j + 1 >= s.len() {
                Err(Error::UnterminatedString)
            } else if !is_escape_char(s[(j + 1) as int]) {
                Err(Error::InvalidEscape)
            } else {
                match string_body_len(s, j + 2) {
                    Ok(n) => Ok(n + 2),
                    Err(e) => Err(e),
                }
            }
        } else if c == '\t' {
            Err(Error::TabInString)
        } else if c == '\n' {
            Err(Error::NewlineInString)
        } else if c == '"' {
            Ok(0)
        } else {
            match string_body_len(s, j + 1) {
                Ok(n) => Ok(n + 1),
                Err(e) => Err(e),
            }
        }
    }
}

/// A string at `i`: an opening quote (taken when present), whitespace that
/// is skipped, the body, and the closing quote.
pub open spec fn string_at(s: Seq<char>, i: nat) -> Result<(Seq<char>, nat), Error> {
    let o = opt_len(s, i, '"');
    let w = ws_len(s, i + o);
    let start = i + o + w;
    match string_body_len(s, start) {
        Ok(n) => Ok((s.subrange(start as int, (start + n) as int), o + w + n + 1)),
        Err(e) => Err(e),
    }
}

/// The characters that a numeric literal is made of.
pub open spec fn is_number_char(c: char) -> bool {
    is_digit(c) || c == '.' || c == 'e' || c == 'E' || c == '+' || c == '-'
}

/// The length of the run of number characters that starts at `i`.
pub open spec fn number_run_len(s: Seq<char>, i: nat) -> nat
    decreases s.len() - i,
{
    if i < s.len() && is_number_char(s[i as int]) {
        1 + number_run_len(s, i + 1)
    } else {
        0
    }
}

/// A number at `i`: the longest run of number characters.
pub open spec fn number_at(s: Seq<char>, i: nat) -> Result<(JsonTree, nat), Error> {
    let n = number_run_len(s, i);
    match number_literal(s.subrange(i as int, (i + n) as int)) {
        Ok(t) => Ok((t, n)),
        Err(e) => Err(e),
    }
}

/// Adds `used` characters and a prefix of items to what a rule yields.
pub open spec fn prepend<A>(items: Seq<A>, used: nat, rest: Result<(Seq<A>, nat), Error>) -> Result<
    (Seq<A>, nat),
    Error,
> {
    match rest {
        Ok((t, n)) => Ok((items + t, used + n)),
        Err(e) => Err(e),
    }
}

/// Where the contents of an object or an array opened at `p` start: after
/// the bracket and the whitespace that follows it.
pub open spec fn inside_start(s: Seq<char>, p: nat) -> nat {
    p + 1 + ws_len(s, p + 1)
}

/// A value at `i`, after leading whitespace; the first character decides
/// its kind. `true` and `null` take four characters and `false` five,
/// whatever follows the first one.
pub open spec fn value_at(s: Seq<char>, i: nat) -> Result<(JsonTree, nat), Error>
    decreases dist(s, i), 0nat,
{
    let w = ws_len(s, i);
    let p = i + w;
    match char_at(s, p as int) {
        Some(c) => if c == '{' {
            let q = inside_start(s, p);
            match members_at(s, q) {
                Ok((m, n)) => Ok((JsonTree::Object(m), (q - i) as nat + n)),
                Err(e) => Err(e),
            }
        } else if c == '[' {
            let q = inside_start(s, p);
            match elements_at(s, q) {
                Ok((a, n)) => Ok((JsonTree::Array(a), (q - i) as nat + n)),
                Err(e) => Err(e),
            }
        } else if c == '"' {
            match string_at(s, p) {
                Ok((t, n)) => Ok((JsonTree::String(t), w + n)),
                Err(e) => Err(e),
            }
        } else if is_digit(c) || c == '-' {
            match number_at(s, p) {
                Ok((t, n)) => Ok((t, w + n)),
                Err(e) => Err(e),
            }
        } else if c == 't' {
            Ok((JsonTree::Boolean(true), w + 4))
        } else if c == 'f' {
            Ok((JsonTree::Boolean(false), w + 5))
        } else if c == 'n' {
            Ok((JsonTree::Null, w + 4))
        } else {
            Err(Error::UnexpectedCharacter)
        },
        None => Err(Error::UnexpectedCharacter),
    }
}

/// One member from `j`: whitespace, a key, `:`, a value, and a quote that
/// is taken when it follows the value. A key read as empty also takes a
/// quote that follows it.
pub open spec fn member_at(s: Seq<char>, j: nat) -> Result<((Seq<char>, JsonTree), nat), Error>
    decreases dist(s, j), 1nat,
{
    let k0 = j + ws_len(s, j);
    match string_at(s, k0) {
        Err(e) => Err(e),
        Ok((key, n1)) => {
            let k1 = k0 + n1;
            let k2 = if key.len() == 0 {
                k1 + opt_len(s, k1, '"')
            } else {
                k1
            };
            let k3 = k2 + ws_len(s, k2);
            if char_at(s, k3 as int) != Some(':') {
                Err(Error::UnexpectedCharacter)
            } else {
                let k4 = k3 + 1 + ws_len(s, k3 + 1);
                match value_at(s, k4) {
                    Err(e) => Err(e),
                    Ok((v, n2)) => {
                        let k5 = k4 + n2;
                        Ok(((key, v), (k5 + opt_len(s, k5, '"') - j) as nat))
                    },
                }
            }
        },
    }
}

/// The members of an object from `j` (after `{` and whitespace) up to and including
/// its `}`. After a `,` a newline is taken when present.
pub open spec fn members_at(s: Seq<char>, j: nat) -> Result<
    (Seq<(Seq<char>, JsonTree)>, nat),
    Error,
>
    decreases dist(s, j), 2nat,
{
    if char_at(s, j as int) == Some('}') {
        Ok((seq![], 1))
    } else if j >= s.len() {
        // the key's string would start past the end
        Err(Error::UnterminatedString)
    } else {
        match member_at(s, j) {
            Err(e) => Err(e),
            Ok((m, n)) => {
                let k6 = j + n;
                let k7 = k6 + ws_len(s, k6);
                if char_at(s, k7 as int) == Some(',') {
                    let k8 = k7 + 1 + opt_len(s, k7 + 1, '\n');
                    let k9 = k8 + ws_len(s, k8);
                    if k9 <= j {
                        // never taken: a member spans at least the `:` after its key
                        Err(Error::UnexpectedCharacter)
                    } else {
                        prepend(seq![m], (k9 - j) as nat, members_at(s, k9))
                    }
                } else if char_at(s, k7 as int) == Some('}') {
                    Ok((seq![m], (k7 + 1 - j) as nat))
                } else {
                    Err(Error::ExpectedCommaOrBrace)
                }
            },
        }
    }
}

/// The elements of an array from `j` (after `[` and whitespace) up to and including
/// its `]`.
pub open spec fn elements_at(s: Seq<char>, j: nat) -> Result<(Seq<JsonTree>, nat), Error>
    decreases dist(s, j), 2nat,
{
    if char_at(s, j as int) == Some(']') {
        Ok((seq![], 1))
    } else if j >= s.len() {
        // no value can start past the end
        Err(Error::UnexpectedCharacter)
    } else {
        match value_at(s, j) {
            Err(e) => Err(e),
            Ok((v, n)) => {
                let k1 = j + n;
                let k2 = k1 + ws_len(s, k1);
                if char_at(s, k2 as int) == Some(',') {
                    prepend(seq![v], (k2 + 1 - j) as nat, elements_at(s, k2 + 1))
                } else if char_at(s, k2 as int) == Some(']') {
                    Ok((seq![v], (k2 + 1 - j) as nat))
                } else {
                    Err(Error::ExpectedCommaOrBracket)
                }
            },
        }
    }
}

/// The raw text ends with a comma just before a closing bracket.
pub open spec fn ends_with_trailing_comma(s: Seq<char>) -> bool {
    s.len() >= 2 && s[s.len() - 2] == ',' && (s[s.len() - 1] == '}' || s[s.len() - 1] == ']')
}

/// The check made before any value is read: the whitespace-trimmed text
/// must open with `{` or `[`, and the raw text must not end with `,}` or
/// `,]`.
pub open spec fn sanity(s: Seq<char>) -> Result<(), Error> {
    let f = ws_len(s, 0);
    if char_at(s, f as int) != Some('{') && char_at(s, f as int) != Some('[') {
        Err(Error::NotObjectOrArray)
    } else if ends_with_trailing_comma(s) {
        Err(Error::TrailingComma)
    } else {
        Ok(())
    }
}

/// A whole document read from `i`: the text must pass [`sanity`], and
/// nothing but whitespace may follow the value read after the whitespace
/// at `i`.
pub open spec fn document_at(s: Seq<char>, i: nat) -> Result<JsonTree, Error> {
    let p = i + ws_len(s, i);
    if sanity(s) is Err {
        Err(sanity(s)->Err_0)
    } else {
        match value_at(s, p) {
            Err(e) => Err(e),
            Ok((v, n)) => {
                let q = p + n;
                if q + ws_len(s, q) != s.len() {
                    Err(Error::ExtraCharacters)
                } else {
                    Ok(v)
                }
            },
        }
    }
}

/// The document that a text holds, read from its start.
pub open spec fn document(s: Seq<char>) -> Result<JsonTree, Error> {
    document_at(s, 0)
}

/// Parsing is deterministic: the same text always gives the same tree or
/// the same error.
pub proof fn lemma_document_deterministic(s1: Seq<char>, s2: Seq<char>)
    requires
        s1 == s2,
    ensures
        document(s1) == document(s2),
{
}

} // verus!
