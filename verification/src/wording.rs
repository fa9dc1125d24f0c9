//! How things are put into words: numerals, escaped text, descriptions, templates, and names.
use crate::label::{flat_name, nested, rule_label, LabelSpec};
use crate::node::{kind_name, KindSpec};
use crate::paths::{spaced, words_spaced};
use crate::pattern::{RustInputPat, SPat, SPatSpec};
use crate::rule::{RuleSpec, SepKind};
use crate::table::{cases_desc, desc_of};
use crate::text::{decimal, escape_backticks};
use crate::tokens::{fill, filled, holes, pretty, split, ugly, word, words, SrcSpec, TokenSpec};
use vstd::prelude::*;

verus! {

/// The number that some digits stand for.
pub open spec fn numeral_value(digits: Seq<char>) -> int
    decreases digits.len(),
{
    if digits.len() == 0 {
        0
    } else {
        numeral_value(digits.drop_last()) * 10 + (digits.last() as int - '0' as int)
    }
}

/// The numeral of a number stands for it, consists of digits, and has no zero before the others.
pub proof fn numeral_of_number(n: nat)
    ensures
        numeral_value(decimal(n)) == n,
        decimal(n).len() > 0,
        forall|i: int| 0 <= i < decimal(n).len() ==> '0' <= #[trigger] decimal(n)[i] <= '9',
        decimal(n).len() > 1 ==> decimal(n)[0] != '0',
    decreases n,
{
    let d = decimal(n);
    if n < 10 {
        assert(d.drop_last() =~= Seq::empty());
        assert(numeral_value(d.drop_last()) == 0);
    } else {
        numeral_of_number(n / 10);
        assert(d.drop_last() =~= decimal(n / 10));
        let e = decimal(n / 10);
        assert forall|i: int| 0 <= i < d.len() implies '0' <= #[trigger] d[i] <= '9' by {
            if i < e.len() {
                assert(d[i] == e[i]);
            }
        }
        if e.len() == 1 {
            assert(e.drop_last() =~= Seq::empty());
            assert(numeral_value(e.drop_last()) == 0);
            assert(numeral_value(e) == e[0] as int - '0' as int);
        }
    }
}

/// How many backticks there are in some text.
pub open spec fn backticks(text: Seq<char>) -> nat {
    text.filter(|c: char| c == '`').len()
}

proof fn backticks_push(text: Seq<char>, c: char)
    ensures
        backticks(text.push(c)) == backticks(text) + if c == '`' {
            1nat
        } else {
            0nat
        },
{
    reveal(Seq::filter);
    assert(text.push(c).drop_last() =~= text);
}

/// Escaped text has each character of the text, in order, and one more before each backtick, which
/// is a backslash.
pub proof fn escaped_text(text: Seq<char>, i: int)
    requires
        0 <= i < text.len(),
    ensures
        ({
            let escaped = escape_backticks(text);
            let at = i + backticks(text.take(i + 1));
            &&& escaped.len() == text.len() + backticks(text)
            &&& 0 <= at < escaped.len()
            &&& escaped[at] == text[i]
            &&& text[i] == '`' ==> at > 0 && escaped[at - 1] == '\\'
        }),
    decreases text.len(),
{
    let before = text.drop_last();
    assert(before.push(text.last()) =~= text);
    backticks_push(before, text.last());
    escaped_length(before);
    if i == before.len() {
        assert(text.take(i + 1) =~= text);
    } else {
        escaped_text(before, i);
        assert(text.take(i + 1) =~= before.take(i + 1));
    }
}

/// Escaped text is longer than the text by the number of backticks.
pub proof fn escaped_length(text: Seq<char>)
    ensures
        escape_backticks(text).len() == text.len() + backticks(text),
    decreases text.len(),
{
    if text.len() == 0 {
        reveal(Seq::filter);
    } else {
        escaped_length(text.drop_last());
        assert(text.drop_last().push(text.last()) =~= text);
        backticks_push(text.drop_last(), text.last());
    }
}

/// Texts, with a blank, a bar and a blank between any two.
pub open spec fn barred(parts: Seq<Seq<char>>) -> Seq<char>
    decreases parts.len(),
{
    if parts.len() == 0 {
        Seq::empty()
    } else if parts.len() == 1 {
        parts[0]
    } else {
        parts[0] + seq![' ', '|', ' '] + barred(parts.skip(1))
    }
}

proof fn barred_push(parts: Seq<Seq<char>>, last: Seq<char>)
    requires
        parts.len() > 0,
    ensures
        barred(parts.push(last)) == barred(parts) + seq![' ', '|', ' '] + last,
    decreases parts.len(),
{
    let all = parts.push(last);
    if parts.len() == 1 {
        assert(all.skip(1) =~= seq![last]);
        assert(barred(all.skip(1)) == last);
    } else {
        barred_push(parts.skip(1), last);
        assert(all.skip(1) =~= parts.skip(1).push(last));
        assert(barred(all) =~= barred(parts) + seq![' ', '|', ' '] + last);
    }
}

proof fn cases_are_barred(cases: Seq<RuleSpec>, n: nat)
    requires
        n <= cases.len(),
    ensures
        cases_desc(cases, n) == barred(Seq::new(n, |i: int| desc_of(cases[i]))),
    decreases n,
{
    let parts = Seq::new(n, |i: int| desc_of(cases[i]));
    if n > 1 {
        cases_are_barred(cases, (n - 1) as nat);
        let before = Seq::new((n - 1) as nat, |i: int| desc_of(cases[i]));
        barred_push(before, desc_of(cases[n - 1]));
        assert(before.push(desc_of(cases[n - 1])) =~= parts);
        reveal_strlit(" | ");
        assert(" | "@ =~= seq![' ', '|', ' ']);
    }
}

/// The signs that are written after the element of a repetition, and before its separator.
pub open spec fn repeat_signs(sign: char, sep: SepKind) -> Seq<char> {
    match sep {
        SepKind::Simple => seq![sign, ' ', '%', ' '],
        SepKind::Trailing => seq![sign, ' ', '%', '%', ' '],
    }
}

/// A description has those of the parts of the rule, in order: rules in a row and cases in
/// parentheses, with a blank or a bar between them; an option with a question mark; a repetition
/// with a star, or a plus where it is of one or more, and after percent signs its separator.
pub proof fn description_of_rule(rule: RuleSpec)
    ensures
        desc_of(rule) == match rule {
            RuleSpec::Empty => Seq::empty(),
            RuleSpec::Eat(pat) => pretty(pat.matcher),
            RuleSpec::Call(name) => name,
            RuleSpec::Concat(left, right) => seq!['('] + desc_of(*left) + seq![' '] + desc_of(
                *right,
            ) + seq![')'],
            RuleSpec::Or(cases) => seq!['('] + barred(
                Seq::new(cases.len(), |i: int| desc_of(cases[i])),
            ) + seq![')'],
            RuleSpec::Opt(inner) => desc_of(*inner) + seq!['?'],
            RuleSpec::RepeatMany(elem, sep) => desc_of(*elem) + match sep {
                None => seq!['*'],
                Some((sep, kind)) => repeat_signs('*', kind) + desc_of(*sep),
            },
            RuleSpec::RepeatMore(elem, sep) => desc_of(*elem) + match sep {
                None => seq!['+'],
                Some((sep, kind)) => repeat_signs('+', kind) + desc_of(*sep),
            },
        },
{
    reveal_strlit("");
    reveal_strlit("(");
    reveal_strlit(")");
    reveal_strlit(" ");
    reveal_strlit("?");
    reveal_strlit("*");
    reveal_strlit("+");
    reveal_strlit("* % ");
    reveal_strlit("+ % ");
    reveal_strlit("* %% ");
    reveal_strlit("+ %% ");
    match rule {
        RuleSpec::Or(cases) => {
            cases_are_barred(cases, cases.len());
        },
        RuleSpec::RepeatMany(elem, Some((sep, kind))) => {
            assert("* % "@ =~= repeat_signs('*', SepKind::Simple));
            assert("* %% "@ =~= repeat_signs('*', SepKind::Trailing));
            assert(desc_of(rule) =~= desc_of(*elem) + (repeat_signs('*', kind) + desc_of(*sep)));
        },
        RuleSpec::RepeatMore(elem, Some((sep, kind))) => {
            assert("+ % "@ =~= repeat_signs('+', SepKind::Simple));
            assert("+ %% "@ =~= repeat_signs('+', SepKind::Trailing));
            assert(desc_of(rule) =~= desc_of(*elem) + (repeat_signs('+', kind) + desc_of(*sep)));
        },
        _ => {},
    }
}

/// The text of tokens after others comes after the text of these, with a space between. The text of
/// one token is what it says.
pub proof fn text_of_sum(a: SrcSpec, b: SrcSpec)
    requires
        a.len() > 0,
        b.len() > 0,
    ensures
        ugly(a + b) == ugly(a) + seq![' '] + ugly(b),
        pretty(a + b) == pretty(a) + (if a.last() is Text && b[0] is Text {
            seq![' ']
        } else {
            Seq::empty()
        }) + pretty(b),
    decreases b.len(),
{
    let all = a + b;
    if b.len() == 1 {
        assert(all.drop_last() =~= a);
        assert(all[all.len() - 2] == a.last());
    } else {
        assert(all.drop_last() =~= a + b.drop_last());
        assert(all[all.len() - 2] == b[b.len() - 2]);
        text_of_sum(a, b.drop_last());
        assert(b.drop_last()[0] == b[0]);
        assert(ugly(all) =~= ugly(a) + seq![' '] + ugly(b));
        let gap: Seq<char> = if a.last() is Text && b[0] is Text {
            seq![' ']
        } else {
            Seq::empty()
        };
        assert(pretty(all) =~= pretty(a) + gap + pretty(b));
    }
}

/// The text of one token: a word and a numeral as they are.
pub proof fn text_of_token(t: TokenSpec)
    ensures
        ugly(seq![t]) == pretty(seq![t]),
        t matches TokenSpec::Text(s) ==> ugly(seq![t]) == s,
        t matches TokenSpec::Int(n) ==> ugly(seq![t]) == decimal(n),
        ugly(Seq::empty()) == Seq::<char>::empty(),
        pretty(Seq::empty()) == Seq::<char>::empty(),
{
}

proof fn split_sum(a: Seq<char>, b: Seq<char>)
    requires
        split(a).1.len() == 0,
    ensures
        split(a + b) == (split(a).0 + split(b).0, split(b).1),
    decreases b.len(),
{
    if b.len() == 0 {
        assert(a + b =~= a);
        assert(split(a).0 + split(b).0 =~= split(a).0);
        assert(split(a).1 =~= split(b).1);
    } else {
        split_sum(a, b.drop_last());
        assert((a + b).drop_last() =~= a + b.drop_last());
        let (done, open) = split(b.drop_last());
        assert(split(a).0 + done.push(open) =~= (split(a).0 + done).push(open));
    }
}

/// The words of two templates with a blank between are those of the first, and after them those of
/// the second. Text without a blank is one word, and a blank is none.
pub proof fn words_of_sum(a: Seq<char>, blank: char, b: Seq<char>)
    requires
        blank == ' ' || blank == '\n',
    ensures
        words(a.push(blank) + b) == words(a) + words(b),
{
    let first = a.push(blank);
    assert(first.drop_last() =~= a);
    split_sum(first, b);
    let (done, open) = split(b);
    if open.len() > 0 {
        assert(split(first).0 + done.push(open) =~= (split(first).0 + done).push(open));
    }
}

/// Text without a blank is one word, and no text is none.
pub proof fn word_of_text(w: Seq<char>)
    requires
        forall|i: int| 0 <= i < w.len() ==> #[trigger] w[i] != ' ' && w[i] != '\n',
    ensures
        w.len() == 0 ==> words(w) == Seq::<Seq<char>>::empty(),
        w.len() > 0 ==> words(w) == seq![w],
{
    split_word(w);
    assert(Seq::<Seq<char>>::empty().push(w) =~= seq![w]);
}

proof fn split_word(w: Seq<char>)
    requires
        forall|i: int| 0 <= i < w.len() ==> #[trigger] w[i] != ' ' && w[i] != '\n',
    ensures
        split(w) == (Seq::<Seq<char>>::empty(), w),
    decreases w.len(),
{
    if w.len() > 0 {
        assert(forall|i: int| 0 <= i < w.len() - 1 ==> w.drop_last()[i] == #[trigger] w[i]);
        split_word(w.drop_last());
        assert(w.drop_last().push(w.last()) =~= w);
    } else {
        assert(w =~= Seq::empty());
    }
}

proof fn holes_of_sum(a: Seq<Seq<char>>, b: Seq<Seq<char>>, n: nat)
    requires
        n <= b.len(),
    ensures
        holes(a + b, (a.len() + n) as nat) == holes(a, a.len()) + holes(b, n),
    decreases n,
{
    if n == 0 {
        same_holes(a + b, a, a.len());
    } else {
        holes_of_sum(a, b, (n - 1) as nat);
        assert((a + b)[a.len() + n - 1] == b[n - 1]);
    }
}

proof fn same_holes(a: Seq<Seq<char>>, b: Seq<Seq<char>>, n: nat)
    requires
        n <= a.len(),
        n <= b.len(),
        forall|i: int| 0 <= i < n ==> #[trigger] a[i] == b[i],
    ensures
        holes(a, n) == holes(b, n),
    decreases n,
{
    if n > 0 {
        same_holes(a, b, (n - 1) as nat);
    }
}

proof fn same_filled(
    a: Seq<Seq<char>>,
    b: Seq<Seq<char>>,
    x: Seq<SrcSpec>,
    y: Seq<SrcSpec>,
    n: nat,
)
    requires
        n <= a.len(),
        n <= b.len(),
        forall|i: int| 0 <= i < n ==> #[trigger] a[i] == b[i],
        holes(b, n) <= y.len() <= x.len(),
        forall|i: int| 0 <= i < y.len() ==> #[trigger] x[i] == y[i],
    ensures
        filled(a, x, n) == filled(b, y, n),
    decreases n,
{
    if n > 0 {
        same_filled(a, b, x, y, (n - 1) as nat);
        same_holes(a, b, (n - 1) as nat);
    }
}

proof fn filled_sum(
    a: Seq<Seq<char>>,
    b: Seq<Seq<char>>,
    x: Seq<SrcSpec>,
    y: Seq<SrcSpec>,
    n: nat,
)
    requires
        n <= b.len(),
        holes(a, a.len()) == x.len(),
        holes(b, n) <= y.len(),
    ensures
        filled(a + b, x + y, (a.len() + n) as nat) == filled(a, x, a.len()) + filled(b, y, n),
    decreases n,
{
    if n == 0 {
        same_filled(a + b, a, x + y, x, a.len());
        assert(filled(a, x, a.len()) + filled(b, y, 0) =~= filled(a, x, a.len()));
    } else {
        filled_sum(a, b, x, y, (n - 1) as nat);
        holes_of_sum(a, b, (n - 1) as nat);
        assert((a + b)[a.len() + n - 1] == b[n - 1]);
        let before = filled(b, y, (n - 1) as nat);
        let k = holes(b, (n - 1) as nat) as int;
        if b[n - 1] == seq!['$'] {
            assert((x + y)[x.len() + k] == y[k]);
        }
        assert(filled(a + b, x + y, (a.len() + n) as nat) =~= filled(a, x, a.len()) + filled(
            b,
            y,
            n,
        ));
    }
}

/// A template whose first part has as many holes as there are first arguments: these fill its first
/// part, and the others its second.
pub proof fn fill_of_sum(
    a: Seq<char>,
    blank: char,
    b: Seq<char>,
    x: Seq<SrcSpec>,
    y: Seq<SrcSpec>,
)
    requires
        blank == ' ' || blank == '\n',
        holes(words(a), words(a).len()) == x.len(),
        holes(words(b), words(b).len()) == y.len(),
    ensures
        fill(a.push(blank) + b, x + y) == fill(a, x) + fill(b, y),
{
    words_of_sum(a, blank, b);
    filled_sum(words(a), words(b), x, y, words(b).len());
}

/// A word stands for itself as a token, but a dollar sign for the argument.
pub proof fn fill_of_word(w: Seq<char>, x: SrcSpec)
    requires
        w.len() > 0,
        forall|i: int| 0 <= i < w.len() ==> #[trigger] w[i] != ' ' && w[i] != '\n',
    ensures
        w == seq!['$'] ==> fill(w, seq![x]) == x,
        w != seq!['$'] ==> fill(w, Seq::empty()) == seq![TokenSpec::Text(w)],
{
    word_of_text(w);
    reveal_with_fuel(filled, 2);
    reveal_with_fuel(holes, 2);
    assert(Seq::<TokenSpec>::empty() + x =~= x);
}

/// A pattern is written as the string that it is, or as its first and its last character with the
/// sign for a range between.
pub proof fn pattern_is_written(pat: SPat)
    ensures
        pat@ matches SPatSpec::String(s) ==> pat.matcher_spec() == seq![TokenSpec::Str(s)],
        pat@ matches SPatSpec::Range(start, end) ==> pat.matcher_spec() == seq![
            TokenSpec::Char(start),
            TokenSpec::Text(seq!['.', '.', '=']),
            TokenSpec::Char(end),
        ],
        SPat::slice_ty_spec() == seq![TokenSpec::Text(seq!['s', 't', 'r'])],
{
    reveal_strlit("$ ..= $");
    reveal_strlit("str");
    assert("str"@ =~= seq!['s', 't', 'r']);
    fill_of_word("str"@, Seq::empty());
    if let SPatSpec::Range(start, end) = pat@ {
        let ws = seq![seq!['$'], seq!['.', '.', '='], seq!['$']];
        reveal_with_fuel(spaced, 4);
        reveal_with_fuel(filled, 4);
        reveal_with_fuel(holes, 4);
        assert("$ ..= $"@.push(' ') =~= spaced(ws, 3));
        words_spaced("$ ..= $"@, ws);
        assert(ws[1].len() == 3);
        assert(pat.matcher_spec() =~= seq![
            TokenSpec::Char(start),
            TokenSpec::Text(ws[1]),
            TokenSpec::Char(end),
        ]);
    }
}

/// The name of a label inside of a function is that of the function, and after two underscores the
/// number of the label. The label of a rule has the name of the rule.
pub proof fn label_is_named(parent: LabelSpec, i: nat, rule: Seq<char>)
    ensures
        flat_name(nested(parent, i)) == flat_name(parent) + seq!['_', '_'] + decimal(i),
        flat_name(rule_label(rule)) == rule,
{
    reveal_strlit("__");
    assert("__"@ =~= seq!['_', '_']);
    assert(nested(parent, i).1.drop_last() =~= parent.1);
    assert((parent.0, parent.1) == parent);
}

/// A kind of nodes has the name of its rule, or an underscore and its number.
pub proof fn kind_is_named(kind: KindSpec)
    ensures
        kind matches KindSpec::NamedRule(name) ==> kind_name(kind) == name,
        kind matches KindSpec::Anon(i) ==> kind_name(kind) == seq!['_'] + decimal(i),
{
    reveal_strlit("_");
    assert("_"@ =~= seq!['_']);
}

} // verus!
