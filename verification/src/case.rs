//! Naming conventions for the outward names of members.
//!
//! A rule reads a name character by character. An underscore or a hyphen
//! separates two words, and so does an ASCII lower-case letter followed by an
//! ASCII upper-case letter. Every other character, ASCII or not, belongs to
//! the word it stands in.

use crate::text::same_text;
use vstd::prelude::*;

verus! {

/// A naming convention that turns the identifier of a member into its
/// outward name.
#[derive(Clone, Copy, Debug, PartialEq, Eq, Structural)]
pub enum RenameRule {
    /// Keep the identifier as it is written.
    Unchanged,
    /// `lowercase`: every letter in lower case, separators kept.
    LowerCase,
    /// `UPPERCASE`: every letter in upper case, separators kept.
    UpperCase,
    /// `PascalCase`: separators dropped, every word starts in upper case.
    PascalCase,
    /// `camelCase`: as `PascalCase`, with the first letter in lower case.
    CamelCase,
    /// `snake_case`: lower-case words joined by underscores.
    SnakeCase,
    /// `SCREAMING_SNAKE_CASE`: upper-case words joined by underscores.
    ScreamingSnakeCase,
    /// `kebab-case`: lower-case words joined by hyphens.
    KebabCase,
    /// `SCREAMING-KEBAB-CASE`: upper-case words joined by hyphens.
    ScreamingKebabCase,
}

pub open spec fn is_upper(c: char) -> bool {
    'A' <= c && c <= 'Z'
}

pub open spec fn is_lower(c: char) -> bool {
    'a' <= c && c <= 'z'
}

pub open spec fn is_separator(c: char) -> bool {
    c == '_' || c == '-'
}

pub open spec fn to_upper(c: char) -> char {
    if is_lower(c) {
        ((c as u32) - 32) as char
    } else {
        c
    }
}

pub open spec fn to_lower(c: char) -> char {
    if is_upper(c) {
        ((c as u32) + 32) as char
    } else {
        c
    }
}

/// The character before the end of `s`, if there is one.
pub open spec fn last_of(s: Seq<char>) -> Option<char> {
    if s.len() == 0 {
        None
    } else {
        Some(s.last())
    }
}

/// A word starts at `c` when nothing, or a separator, stands before it.
pub open spec fn starts_word(prev: Option<char>, c: char) -> bool {
    !is_separator(c) && match prev {
        None => true,
        Some(p) => is_separator(p),
    }
}

/// A word ends between `prev` and `c` without a separator: lower case, then
/// upper case.
pub open spec fn case_boundary(prev: Option<char>, c: char) -> bool {
    is_upper(c) && match prev {
        None => false,
        Some(p) => is_lower(p),
    }
}

/// The words of a name, each in the case that `upper` asks for, joined by
/// `joint`: what the character `c` contributes when `prev` stands before it.
pub open spec fn joined_piece(joint: char, upper: bool, prev: Option<char>, c: char) -> Seq<char> {
    let cased = if upper {
        to_upper(c)
    } else {
        to_lower(c)
    };
    if is_separator(c) {
        seq![joint]
    } else if case_boundary(prev, c) {
        seq![joint, cased]
    } else {
        seq![cased]
    }
}

/// What the character `c` contributes to the outward name when `prev` stands
/// before it in the identifier. `CamelCase` is built from `PascalCase`, see
/// [`apply`].
pub open spec fn piece(rule: RenameRule, prev: Option<char>, c: char) -> Seq<char> {
    match rule {
        RenameRule::Unchanged => seq![c],
        RenameRule::LowerCase => seq![to_lower(c)],
        RenameRule::UpperCase => seq![to_upper(c)],
        RenameRule::PascalCase | RenameRule::CamelCase => if is_separator(c) {
            Seq::empty()
        } else if starts_word(prev, c) {
            seq![to_upper(c)]
        } else {
            seq![c]
        },
        RenameRule::SnakeCase => joined_piece('_', false, prev, c),
        RenameRule::ScreamingSnakeCase => joined_piece('_', true, prev, c),
        RenameRule::KebabCase => joined_piece('-', false, prev, c),
        RenameRule::ScreamingKebabCase => joined_piece('-', true, prev, c),
    }
}

/// The pieces of all the characters of `name`, in order.
pub open spec fn pieces(rule: RenameRule, name: Seq<char>) -> Seq<char>
    decreases name.len(),
{
    if name.len() == 0 {
        Seq::empty()
    } else {
        pieces(rule, name.drop_last()) + piece(rule, last_of(name.drop_last()), name.last())
    }
}

/// `s` with its first character in lower case.
pub open spec fn lower_first(s: Seq<char>) -> Seq<char> {
    if s.len() == 0 {
        s
    } else {
        s.update(0, to_lower(s[0]))
    }
}

/// The outward name that `rule` gives to the identifier `name`.
pub open spec fn apply(rule: RenameRule, name: Seq<char>) -> Seq<char> {
    match rule {
        RenameRule::CamelCase => lower_first(pieces(RenameRule::PascalCase, name)),
        _ => pieces(rule, name),
    }
}

/// The rule that a configuration value names, if it names one.
pub open spec fn rule_named(name: Seq<char>) -> Option<RenameRule> {
    if name == "lowercase"@ {
        Some(RenameRule::LowerCase)
    } else if name == "UPPERCASE"@ {
        Some(RenameRule::UpperCase)
    } else if name == "PascalCase"@ {
        Some(RenameRule::PascalCase)
    } else if name == "camelCase"@ {
        Some(RenameRule::CamelCase)
    } else if name == "snake_case"@ {
        Some(RenameRule::SnakeCase)
    } else if name == "SCREAMING_SNAKE_CASE"@ {
        Some(RenameRule::ScreamingSnakeCase)
    } else if name == "kebab-case"@ {
        Some(RenameRule::KebabCase)
    } else if name == "SCREAMING-KEBAB-CASE"@ {
        Some(RenameRule::ScreamingKebabCase)
    } else {
        None
    }
}

/// The error of [`RenameRule::from_str`]: the text names no rule.
#[derive(Clone, Copy, Debug, PartialEq, Eq, Structural)]
pub struct UnknownRule;

fn upper_of(c: char) -> (res: char)
    ensures
        res == to_upper(c),
{
    if 'a' <= c && c <= 'z' {
        ((c as u8) - 32) as char
    } else {
        c
    }
}

fn lower_of(c: char) -> (res: char)
    ensures
        res == to_lower(c),
{
    if 'A' <= c && c <= 'Z' {
        ((c as u8) + 32) as char
    } else {
        c
    }
}

fn is_separator_char(c: char) -> (res: bool)
    ensures
        res == is_separator(c),
{
    c == '_' || c == '-'
}

/// Appends to `out` what `c` contributes under `rule` when `prev` stands
/// before it.
fn push_piece(out: &mut String, rule: RenameRule, prev: Option<char>, c: char)
    ensures
        final(out)@ == old(out)@ + piece(rule, prev, c),
{
    let ghost before = out@;
    let sep = is_separator_char(c);
    let after_sep = match prev {
        None => true,
        Some(p) => is_separator_char(p),
    };
    let after_lower = match prev {
        None => false,
        Some(p) => 'a' <= p && p <= 'z',
    };
    let boundary = after_lower && 'A' <= c && c <= 'Z';
    match rule {
        RenameRule::Unchanged => {
            out.push(c);
        },
        RenameRule::LowerCase => {
            out.push(lower_of(c));
        },
        RenameRule::UpperCase => {
            out.push(upper_of(c));
        },
        RenameRule::PascalCase | RenameRule::CamelCase => {
            if sep {
            } else if after_sep {
                out.push(upper_of(c));
            } else {
                out.push(c);
            }
        },
        RenameRule::SnakeCase | RenameRule::ScreamingSnakeCase | RenameRule::KebabCase
        | RenameRule::ScreamingKebabCase => {
            let upper = match rule {
                RenameRule::ScreamingSnakeCase | RenameRule::ScreamingKebabCase => true,
                _ => false,
            };
            let joint = match rule {
                RenameRule::SnakeCase | RenameRule::ScreamingSnakeCase => '_',
                _ => '-',
            };
            if sep {
                out.push(joint);
            } else {
                if boundary {
                    out.push(joint);
                }
                if upper {
                    out.push(upper_of(c));
                } else {
                    out.push(lower_of(c));
                }
            }
        },
    }
    assert(out@ =~= before + piece(rule, prev, c));
}

impl RenameRule {
    /// The rule that `name` names: `lowercase`, `UPPERCASE`, `PascalCase`,
    /// `camelCase`, `snake_case`, `SCREAMING_SNAKE_CASE`, `kebab-case` or
    /// `SCREAMING-KEBAB-CASE`. Any other text is an error.
    pub fn from_str(name: &str) -> (res: Result<RenameRule, UnknownRule>)
        ensures
            res == match rule_named(name@) {
                Some(rule) => Ok::<RenameRule, UnknownRule>(rule),
                None => Err::<RenameRule, UnknownRule>(UnknownRule),
            },
    {
        if same_text(name, "lowercase") {
            Ok(RenameRule::LowerCase)
        } else if same_text(name, "UPPERCASE") {
            Ok(RenameRule::UpperCase)
        } else if same_text(name, "PascalCase") {
            Ok(RenameRule::PascalCase)
        } else if same_text(name, "camelCase") {
            Ok(RenameRule::CamelCase)
        } else if same_text(name, "snake_case") {
            Ok(RenameRule::SnakeCase)
        } else if same_text(name, "SCREAMING_SNAKE_CASE") {
            Ok(RenameRule::ScreamingSnakeCase)
        } else if same_text(name, "kebab-case") {
            Ok(RenameRule::KebabCase)
        } else if same_text(name, "SCREAMING-KEBAB-CASE") {
            Ok(RenameRule::ScreamingKebabCase)
        } else {
            Err(UnknownRule)
        }
    }

    /// The outward name of the field `field` under this rule.
    pub fn apply_to_field(self, field: &str) -> (res: String)
        ensures
            res@ == apply(self, field@),
    {
        let n = field.unicode_len();
        let mut out = String::new();
        let mut prev: Option<char> = None;
        let mut i: usize = 0;
        while i < n
            invariant
                n == field@.len(),
                i <= n,
                prev == last_of(field@.take(i as int)),
                out@ == pieces(self, field@.take(i as int)),
            decreases n - i,
        {
            let c = field.get_char(i);
            proof {
                let next = field@.take(i + 1);
                assert(next.drop_last() == field@.take(i as int));
                assert(next.last() == c);
            }
            push_piece(&mut out, self, prev, c);
            prev = Some(c);
            i += 1;
        }
        assert(field@.take(n as int) == field@);
        match self {
            RenameRule::CamelCase => {
                proof {
                    lemma_pieces_camel_is_pascal(field@);
                }
                lower_first_of(out.as_str())
            },
            _ => out,
        }
    }
}

/// `CamelCase` and `PascalCase` contribute the same pieces.
proof fn lemma_pieces_camel_is_pascal(name: Seq<char>)
    ensures
        pieces(RenameRule::CamelCase, name) == pieces(RenameRule::PascalCase, name),
    decreases name.len(),
{
    if name.len() > 0 {
        lemma_pieces_camel_is_pascal(name.drop_last());
    }
}

/// A copy of `s` with its first character in lower case.
fn lower_first_of(s: &str) -> (res: String)
    ensures
        res@ == lower_first(s@),
{
    let n = s.unicode_len();
    let mut out = String::new();
    let mut i: usize = 0;
    while i < n
        invariant
            n == s@.len(),
            i <= n,
            out@ == lower_first(s@).take(i as int),
        decreases n - i,
    {
        let c = s.get_char(i);
        if i == 0 {
            out.push(lower_of(c));
        } else {
            out.push(c);
        }
        assert(lower_first(s@).take(i + 1) == lower_first(s@).take(i as int).push(
            lower_first(s@)[i as int],
        ));
        i += 1;
    }
    assert(lower_first(s@).take(n as int) == lower_first(s@));
    out
}

/// `s` with its first character in upper case.
spec fn upper_first(s: Seq<char>) -> Seq<char> {
    if s.len() == 0 {
        s
    } else {
        s.update(0, to_upper(s[0]))
    }
}

/// No character of `s` is a separator.
spec fn no_separator(s: Seq<char>) -> bool {
    forall|i: int| 0 <= i < s.len() ==> !is_separator(#[trigger] s[i])
}

proof fn lemma_pieces_push(rule: RenameRule, s: Seq<char>, c: char)
    ensures
        pieces(rule, s.push(c)) == pieces(rule, s) + piece(rule, last_of(s), c),
{
    assert(s.push(c).drop_last() == s);
}

proof fn lemma_case_round_trips(c: char)
    ensures
        to_lower(to_lower(c)) == to_lower(c),
        to_upper(to_upper(c)) == to_upper(c),
        to_lower(to_upper(to_lower(c))) == to_lower(c),
        !is_upper(to_lower(c)),
        !is_lower(to_upper(c)),
        is_separator(to_lower(c)) == is_separator(c),
        is_separator(to_upper(c)) == is_separator(c),
        !is_lower(c) ==> to_upper(c) == c,
{
}

proof fn lemma_unchanged_keeps(s: Seq<char>)
    ensures
        pieces(RenameRule::Unchanged, s) == s,
    decreases s.len(),
{
    if s.len() > 0 {
        lemma_unchanged_keeps(s.drop_last());
        assert(s.drop_last().push(s.last()) == s);
    }
}

/// Under `lowercase` and `UPPERCASE` the outward name of an outward name is
/// that name.
proof fn lemma_plain_case_idempotent(rule: RenameRule, s: Seq<char>)
    requires
        rule == RenameRule::LowerCase || rule == RenameRule::UpperCase,
    ensures
        pieces(rule, pieces(rule, s)) == pieces(rule, s),
    decreases s.len(),
{
    if s.len() > 0 {
        let t = pieces(rule, s.drop_last());
        let c = s.last();
        let x = if rule == RenameRule::LowerCase {
            to_lower(c)
        } else {
            to_upper(c)
        };
        lemma_plain_case_idempotent(rule, s.drop_last());
        lemma_case_round_trips(c);
        assert(pieces(rule, s) == t.push(x));
        lemma_pieces_push(rule, t, x);
        assert(pieces(rule, t) + seq![x] == t.push(x));
    }
}

/// The joint and the case of the four rules that join the words of a name.
spec fn joining(rule: RenameRule) -> Option<(char, bool)> {
    match rule {
        RenameRule::SnakeCase => Some(('_', false)),
        RenameRule::ScreamingSnakeCase => Some(('_', true)),
        RenameRule::KebabCase => Some(('-', false)),
        RenameRule::ScreamingKebabCase => Some(('-', true)),
        _ => None,
    }
}

/// An outward name in upper-case words does not end in a lower-case letter.
proof fn lemma_screaming_ends_not_lower(rule: RenameRule, s: Seq<char>)
    requires
        joining(rule) matches Some((_, upper)) && upper,
    ensures
        last_of(pieces(rule, s)) matches Some(p) ==> !is_lower(p),
{
    if s.len() > 0 {
        let t = pieces(rule, s.drop_last());
        let p = piece(rule, last_of(s.drop_last()), s.last());
        lemma_case_round_trips(s.last());
        assert(p.len() > 0);
        assert((t + p).last() == p.last());
    }
}

proof fn lemma_joined_idempotent(rule: RenameRule, s: Seq<char>)
    requires
        joining(rule) is Some,
    ensures
        pieces(rule, pieces(rule, s)) == pieces(rule, s),
    decreases s.len(),
{
    if s.len() > 0 {
        let (joint, upper) = joining(rule)->0;
        let t = pieces(rule, s.drop_last());
        let prev = last_of(s.drop_last());
        let c = s.last();
        let cased = if upper {
            to_upper(c)
        } else {
            to_lower(c)
        };
        lemma_joined_idempotent(rule, s.drop_last());
        lemma_case_round_trips(c);
        lemma_case_round_trips(cased);
        if upper {
            lemma_screaming_ends_not_lower(rule, s.drop_last());
        }
        if is_separator(c) {
            assert(pieces(rule, s) == t.push(joint));
            lemma_pieces_push(rule, t, joint);
            assert(pieces(rule, t) + seq![joint] == t.push(joint));
        } else if case_boundary(prev, c) {
            assert(pieces(rule, s) == t.push(joint).push(cased));
            lemma_pieces_push(rule, t, joint);
            assert(pieces(rule, t) + seq![joint] == t.push(joint));
            lemma_pieces_push(rule, t.push(joint), cased);
            assert(last_of(t.push(joint)) == Some(joint));
            assert(t.push(joint) + seq![cased] == t.push(joint).push(cased));
        } else {
            assert(pieces(rule, s) == t.push(cased));
            lemma_pieces_push(rule, t, cased);
            assert(pieces(rule, t) + seq![cased] == t.push(cased));
        }
    }
}

/// `PascalCase` drops every separator.
proof fn lemma_pascal_no_separator(s: Seq<char>)
    ensures
        no_separator(pieces(RenameRule::PascalCase, s)),
    decreases s.len(),
{
    if s.len() > 0 {
        lemma_pascal_no_separator(s.drop_last());
        lemma_case_round_trips(s.last());
    }
}

/// A `PascalCase` name does not start with a lower-case letter.
proof fn lemma_pascal_starts_not_lower(s: Seq<char>)
    ensures
        pieces(RenameRule::PascalCase, s).len() > 0 ==> !is_lower(
            pieces(RenameRule::PascalCase, s)[0],
        ),
    decreases s.len(),
{
    if s.len() > 0 {
        let rest = s.drop_last();
        let t = pieces(RenameRule::PascalCase, rest);
        lemma_pascal_starts_not_lower(rest);
        lemma_case_round_trips(s.last());
        if t.len() == 0 && rest.len() > 0 {
            // nothing came of `rest`, so it ends in a separator
            let before = pieces(RenameRule::PascalCase, rest.drop_last());
            let p = piece(RenameRule::PascalCase, last_of(rest.drop_last()), rest.last());
            assert(t == before + p);
            assert(p.len() == 0);
            assert(is_separator(rest.last()));
        }
    }
}

/// On a name without separators `PascalCase` only raises the first letter.
proof fn lemma_pascal_without_separator(t: Seq<char>)
    requires
        no_separator(t),
    ensures
        pieces(RenameRule::PascalCase, t) == upper_first(t),
    decreases t.len(),
{
    if t.len() > 0 {
        let rest = t.drop_last();
        assert(no_separator(rest)) by {
            assert forall|i: int| 0 <= i < rest.len() implies !is_separator(#[trigger] rest[i]) by {
                assert(rest[i] == t[i]);
            }
        }
        lemma_pascal_without_separator(rest);
        assert(!is_separator(t.last()));
        if rest.len() > 0 {
            assert(!is_separator(rest.last())) by {
                assert(rest.last() == t[rest.len() - 1]);
            }
            assert(upper_first(rest) + seq![t.last()] == upper_first(t));
        } else {
            assert(Seq::<char>::empty() + seq![to_upper(t.last())] == upper_first(t));
        }
    }
}

/// Applying a rule to a name that the same rule produced changes nothing:
/// for every rule and every name, `apply(rule, apply(rule, name))` is
/// `apply(rule, name)`.
pub proof fn lemma_apply_idempotent(rule: RenameRule, name: Seq<char>)
    ensures
        apply(rule, apply(rule, name)) == apply(rule, name),
{
    match rule {
        RenameRule::Unchanged => {
            lemma_unchanged_keeps(name);
            lemma_unchanged_keeps(pieces(rule, name));
        },
        RenameRule::LowerCase | RenameRule::UpperCase => {
            lemma_plain_case_idempotent(rule, name);
        },
        RenameRule::PascalCase => {
            let p = pieces(RenameRule::PascalCase, name);
            lemma_pascal_no_separator(name);
            lemma_pascal_starts_not_lower(name);
            lemma_pascal_without_separator(p);
            if p.len() > 0 {
                lemma_case_round_trips(p[0]);
                assert(upper_first(p) == p);
            }
        },
        RenameRule::CamelCase => {
            let p = pieces(RenameRule::PascalCase, name);
            let low = lower_first(p);
            lemma_pascal_no_separator(name);
            if p.len() > 0 {
                lemma_case_round_trips(p[0]);
                assert(no_separator(low)) by {
                    assert forall|i: int| 0 <= i < low.len() implies !is_separator(
                        #[trigger] low[i],
                    ) by {
                        if i > 0 {
                            assert(low[i] == p[i]);
                        }
                    }
                }
                lemma_pascal_without_separator(low);
                assert(lower_first(upper_first(low)) == low);
            } else {
                assert(pieces(RenameRule::PascalCase, low) == low);
            }
        },
        _ => {
            lemma_joined_idempotent(rule, name);
        },
    }
}

} // verus!
