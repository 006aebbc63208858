//! Text as the drawing writes it: comparing strings by their characters,
//! and reading a TEXT without the codes it is written in.

use vstd::prelude::*;
use vstd::string::*;
use uncad_model::text::{tokens, Break, Special, Switch, TextKind, Toggle, Token};

verus! {

/// `a` sorts strictly before `b`: the order of `str`, which compares the
/// characters' scalar values one by one, a proper prefix first.
pub open spec fn chars_lt(a: Seq<char>, b: Seq<char>) -> bool
    decreases a.len(),
{
    if a.len() == 0 {
        b.len() > 0
    } else if b.len() == 0 {
        false
    } else if a[0] != b[0] {
        (a[0] as int) < (b[0] as int)
    } else {
        chars_lt(a.drop_first(), b.drop_first())
    }
}

pub proof fn lemma_chars_lt_irreflexive(a: Seq<char>)
    ensures
        !chars_lt(a, a),
    decreases a.len(),
{
    if a.len() > 0 {
        lemma_chars_lt_irreflexive(a.drop_first());
    }
}

pub proof fn lemma_chars_lt_transitive(a: Seq<char>, b: Seq<char>, c: Seq<char>)
    requires
        chars_lt(a, b),
        chars_lt(b, c),
    ensures
        chars_lt(a, c),
    decreases a.len(),
{
    if a.len() > 0 && b.len() > 0 && c.len() > 0 && a[0] == b[0] && b[0] == c[0] {
        lemma_chars_lt_transitive(a.drop_first(), b.drop_first(), c.drop_first());
    }
}

pub proof fn lemma_chars_lt_total(a: Seq<char>, b: Seq<char>)
    ensures
        a == b || chars_lt(a, b) || chars_lt(b, a),
    decreases a.len(),
{
    if a.len() > 0 && b.len() > 0 && a[0] == b[0] {
        lemma_chars_lt_total(a.drop_first(), b.drop_first());
        if a.drop_first() == b.drop_first() {
            assert forall|i: int| 0 <= i < a.len() implies a[i] == b[i] by {
                if i > 0 {
                    assert(a[i] == a.drop_first()[i - 1]);
                    assert(b[i] == b.drop_first()[i - 1]);
                }
            }
            assert(a =~= b);
        }
    } else if a.len() == 0 && b.len() == 0 {
        assert(a =~= b);
    }
}

/// The order of strings is a strict total order.
pub proof fn lemma_chars_lt_order()
    ensures
        forall|a: Seq<char>| !chars_lt(a, a),
        forall|a: Seq<char>, b: Seq<char>, c: Seq<char>|
            chars_lt(a, b) && chars_lt(b, c) ==> chars_lt(a, c),
        forall|a: Seq<char>, b: Seq<char>| a == b || chars_lt(a, b) || chars_lt(b, a),
{
    assert forall|a: Seq<char>| !chars_lt(a, a) by {
        lemma_chars_lt_irreflexive(a);
    }
    assert forall|a: Seq<char>, b: Seq<char>, c: Seq<char>|
        chars_lt(a, b) && chars_lt(b, c) implies chars_lt(a, c) by {
        lemma_chars_lt_transitive(a, b, c);
    }
    assert forall|a: Seq<char>, b: Seq<char>| a == b || chars_lt(a, b) || chars_lt(b, a) by {
        lemma_chars_lt_total(a, b);
    }
}

/// `c` with an ASCII capital letter taken to its small letter, as a scalar
/// value.
pub open spec fn folded_lower(c: char) -> int {
    if 65 <= (c as int) <= 90 {
        (c as int) + 32
    } else {
        c as int
    }
}

/// `c` with an ASCII small letter taken to its capital, as a scalar value.
pub open spec fn folded_upper(c: char) -> int {
    if 97 <= (c as int) <= 122 {
        (c as int) - 32
    } else {
        c as int
    }
}

/// `a` and `b` are the same string but for the case of ASCII letters
/// (`str::eq_ignore_ascii_case`).
pub open spec fn eq_ignore_ascii_case(a: Seq<char>, b: Seq<char>) -> bool {
    a.len() == b.len() && forall|i: int| 0 <= i < a.len() ==> folded_lower(a[i]) == folded_lower(b[i])
}

/// `a` with its ASCII letters made capitals starts with `prefix`.
pub open spec fn upper_starts_with(a: Seq<char>, prefix: Seq<char>) -> bool {
    a.len() >= prefix.len() && forall|i: int| 0 <= i < prefix.len() ==> folded_upper(a[i]) == prefix[i] as int
}

fn lower_code(c: char) -> (r: u32)
    ensures
        r == folded_lower(c),
{
    let code = c as u32;
    if 65 <= code && code <= 90 {
        code + 32
    } else {
        code
    }
}

fn upper_code(c: char) -> (r: u32)
    ensures
        r == folded_upper(c),
{
    let code = c as u32;
    if 97 <= code && code <= 122 {
        code - 32
    } else {
        code
    }
}

/// Whether `a` and `b` are the same string but for the case of ASCII
/// letters.
pub fn eq_ignore_case(a: &str, b: &str) -> (r: bool)
    ensures
        r == eq_ignore_ascii_case(a@, b@),
{
    let la = a.unicode_len();
    let lb = b.unicode_len();
    if la != lb {
        return false;
    }
    let mut i: usize = 0;
    while i < la
        invariant
            la == a@.len(),
            lb == b@.len(),
            la == lb,
            i <= la,
            forall|k: int| 0 <= k < i ==> folded_lower(a@[k]) == folded_lower(b@[k]),
        decreases la - i,
    {
        if lower_code(a.get_char(i)) != lower_code(b.get_char(i)) {
            return false;
        }
        i = i + 1;
    }
    true
}

/// Whether `a`, its ASCII letters made capitals, starts with `prefix`.
pub fn upper_has_prefix(a: &str, prefix: &str) -> (r: bool)
    ensures
        r == upper_starts_with(a@, prefix@),
{
    let la = a.unicode_len();
    let lp = prefix.unicode_len();
    if la < lp {
        return false;
    }
    let mut i: usize = 0;
    while i < lp
        invariant
            la == a@.len(),
            lp == prefix@.len(),
            lp <= la,
            i <= lp,
            forall|k: int| 0 <= k < i ==> folded_upper(a@[k]) == prefix@[k] as int,
        decreases lp - i,
    {
        if upper_code(a.get_char(i)) != prefix.get_char(i) as u32 {
            return false;
        }
        i = i + 1;
    }
    true
}

/// Whether `a` and `b` are the same string.
pub fn str_eq(a: &str, b: &str) -> (r: bool)
    ensures
        r == (a@ == b@),
{
    let la = a.unicode_len();
    let lb = b.unicode_len();
    if la != lb {
        return false;
    }
    let mut i: usize = 0;
    while i < la
        invariant
            la == a@.len(),
            lb == b@.len(),
            la == lb,
            i <= la,
            forall|k: int| 0 <= k < i ==> a@[k] == b@[k],
        decreases la - i,
    {
        if a.get_char(i) != b.get_char(i) {
            return false;
        }
        i = i + 1;
    }
    assert(a@ =~= b@);
    true
}

/// Whether `a` sorts strictly before `b`.
pub fn str_lt(a: &str, b: &str) -> (r: bool)
    ensures
        r == chars_lt(a@, b@),
{
    let la = a.unicode_len();
    let lb = b.unicode_len();
    let mut i: usize = 0;
    assert(a@.skip(0) =~= a@);
    assert(b@.skip(0) =~= b@);
    while i < la && i < lb
        invariant
            la == a@.len(),
            lb == b@.len(),
            i <= la,
            i <= lb,
            chars_lt(a@, b@) == chars_lt(a@.skip(i as int), b@.skip(i as int)),
        decreases la - i,
    {
        let ca = a.get_char(i);
        let cb = b.get_char(i);
        if ca != cb {
            return (ca as u32) < (cb as u32);
        }
        assert(a@.skip(i as int).drop_first() =~= a@.skip(i + 1));
        assert(b@.skip(i as int).drop_first() =~= b@.skip(i + 1));
        i = i + 1;
    }
    i == la && i < lb
}

/// The characters of each string.
pub open spec fn str_views(v: Seq<&str>) -> Seq<Seq<char>> {
    v.map_values(|s: &str| s@)
}

/// Each string sorts strictly before the next: sorted, each once.
pub open spec fn strictly_sorted(v: Seq<Seq<char>>) -> bool {
    forall|k: int, l: int| 0 <= k < l < v.len() ==> chars_lt(#[trigger] v[k], #[trigger] v[l])
}

proof fn lemma_sorted_agree_below(a: Seq<Seq<char>>, b: Seq<Seq<char>>, k: int)
    requires
        strictly_sorted(a),
        strictly_sorted(b),
        a.to_set() == b.to_set(),
        0 <= k <= a.len(),
        k <= b.len(),
    ensures
        forall|g: int| 0 <= g < k ==> a[g] == b[g],
    decreases k,
{
    lemma_chars_lt_order();
    if k > 0 {
        lemma_sorted_agree_below(a, b, k - 1);
        let p = k - 1;
        let x = a[p];
        let y = b[p];
        if x != y {
            assert(b.to_set().contains(y));
            assert(a.to_set().contains(y));
            let m = choose|m: int| 0 <= m < a.len() && a[m] == y;
            if m < p {
                assert(b[m] == y);
                assert(chars_lt(b[m], b[p]));
            }
            assert(m > p);
            assert(chars_lt(x, y));
            assert(a.to_set().contains(x));
            let n = choose|n: int| 0 <= n < b.len() && b[n] == x;
            if n < p {
                assert(a[n] == x);
                assert(chars_lt(a[n], a[p]));
            }
            assert(n > p);
            assert(chars_lt(y, x));
        }
    }
}

/// A set of strings has one sorted listing: two strictly sorted lists of
/// the same strings are the same list.
pub proof fn lemma_strictly_sorted_unique(a: Seq<Seq<char>>, b: Seq<Seq<char>>)
    requires
        strictly_sorted(a),
        strictly_sorted(b),
        a.to_set() == b.to_set(),
    ensures
        a == b,
{
    lemma_chars_lt_order();
    if a.len() <= b.len() {
        lemma_sorted_agree_below(a, b, a.len() as int);
        if a.len() < b.len() {
            let p = a.len() as int;
            assert(b.to_set().contains(b[p]));
            let m = choose|m: int| 0 <= m < a.len() && a[m] == b[p];
            assert(b[m] == b[p]);
            assert(chars_lt(b[m], b[p]));
        }
    } else {
        lemma_sorted_agree_below(a, b, b.len() as int);
        let p = b.len() as int;
        assert(a.to_set().contains(a[p]));
        let m = choose|m: int| 0 <= m < b.len() && b[m] == a[p];
        assert(a[m] == a[p]);
        assert(chars_lt(a[m], a[p]));
    }
    assert(a =~= b);
}

/// Adds `name` to a list kept sorted, each string once; nothing is added
/// when it is there already.
pub fn insert_distinct<'a>(names: &mut Vec<&'a str>, name: &'a str)
    requires
        strictly_sorted(str_views(old(names)@)),
    ensures
        strictly_sorted(str_views(final(names)@)),
        str_views(final(names)@).to_set() == str_views(old(names)@).to_set().insert(name@),
{
    proof {
        lemma_chars_lt_order();
    }
    let ghost old_v = str_views(names@);
    let mut pos: usize = 0;
    while pos < names.len() && str_lt(names[pos], name)
        invariant
            pos <= names.len(),
            old_v == str_views(names@),
            forall|k: int| 0 <= k < pos ==> chars_lt(#[trigger] old_v[k], name@),
        decreases names.len() - pos,
    {
        pos = pos + 1;
    }
    if pos < names.len() && !str_lt(name, names[pos]) {
        // Neither sorts before the other: the name is there.
        assert(old_v[pos as int] == name@);
        assert(old_v.to_set().contains(name@));
        assert(old_v.to_set().insert(name@) =~= old_v.to_set());
        return;
    }
    names.insert(pos, name);
    let ghost new_v = str_views(names@);
    proof {
        assert(new_v =~= old_v.insert(pos as int, name@));
        assert forall|k: int, l: int| 0 <= k < l < new_v.len() implies chars_lt(
            #[trigger] new_v[k],
            #[trigger] new_v[l],
        ) by {
            if l < pos {
            } else if k > pos {
                assert(new_v[k] == old_v[k - 1] && new_v[l] == old_v[l - 1]);
            } else if k < pos && l > pos {
                assert(new_v[l] == old_v[l - 1]);
                assert(chars_lt(old_v[k], name@));
                if l - 1 > pos {
                    assert(chars_lt(old_v[pos as int], old_v[l - 1]));
                }
                assert(chars_lt(name@, old_v[l - 1]));
            } else if k == pos {
                assert(new_v[l] == old_v[l - 1]);
                if l - 1 > pos {
                    assert(chars_lt(old_v[pos as int], old_v[l - 1]));
                }
            }
        }
        assert forall|x: Seq<char>| new_v.to_set().contains(x) <==> old_v.to_set().insert(
            name@,
        ).contains(x) by {
            if new_v.to_set().contains(x) {
                let k = choose|k: int| 0 <= k < new_v.len() && new_v[k] == x;
                if k < pos {
                    assert(old_v[k] == x);
                } else if k > pos {
                    assert(old_v[k - 1] == x);
                }
            }
            if old_v.to_set().contains(x) && x != name@ {
                let k = choose|k: int| 0 <= k < old_v.len() && old_v[k] == x;
                if k < pos {
                    assert(new_v[k] == x);
                } else {
                    assert(new_v[k + 1] == x);
                }
            }
            if x == name@ {
                assert(new_v[pos as int] == x);
            }
        }
        assert(new_v.to_set() =~= old_v.to_set().insert(name@));
    }
}

/// A sign a percent code names.
#[derive(Debug, Clone, Copy, PartialEq, Eq, Structural)]
pub enum SpecialSign {
    /// `%%d`.
    Degree,
    /// `%%p`.
    PlusMinus,
    /// `%%c`.
    Diameter,
}

/// How a drawing switch is set.
#[derive(Debug, Clone, Copy, PartialEq, Eq, Structural)]
pub enum SwitchState {
    On,
    Off,
    /// A percent code flips whatever the state is.
    Flip,
}

/// A switch of how the text is drawn.
#[derive(Debug, Clone, Copy, PartialEq, Eq, Structural)]
pub enum ToggleCode {
    Underline(SwitchState),
    Overline(SwitchState),
    StrikeThrough(SwitchState),
}

/// A line break MTEXT writes.
#[derive(Debug, Clone, Copy, PartialEq, Eq, Structural)]
pub enum LineBreak {
    Paragraph,
    Column,
    DimensionLine,
}

/// One piece of a text, as the model's tokenizer splits it.
#[derive(Debug)]
pub enum TextToken {
    /// A character of the text.
    Char(char),
    /// `%%d`, `%%p`, `%%c`.
    Special(SpecialSign),
    /// `%%nnn`: a character whose glyph depends on the font.
    CharCode(u16),
    /// `%%u`, `%%o` and MTEXT's switches.
    Toggle(ToggleCode),
    /// MTEXT's `\P`, `\N`, `\X`.
    Break(LineBreak),
    /// MTEXT's `\~`.
    NonBreakingSpace,
    /// MTEXT's `\S...;` with a separator.
    Stack { top: String, bottom: String, separator: char },
    /// MTEXT's `\S...;` without a separator: the text as written.
    StackUnsplit(String),
    /// An MTEXT code that sets a value until the next `;`.
    Property { code: char, value: String },
    GroupStart,
    GroupEnd,
    /// What looks like a code but is not one: the text it covers.
    Unknown(String),
}

/// A [`TextToken`] with its strings as character sequences.
pub enum TextTokenView {
    Char(char),
    Special(SpecialSign),
    CharCode(u16),
    Toggle(ToggleCode),
    Break(LineBreak),
    NonBreakingSpace,
    Stack { top: Seq<char>, bottom: Seq<char>, separator: char },
    StackUnsplit(Seq<char>),
    Property { code: char, value: Seq<char> },
    GroupStart,
    GroupEnd,
    Unknown(Seq<char>),
}

impl View for TextToken {
    type V = TextTokenView;

    open spec fn view(&self) -> TextTokenView {
        match self {
            TextToken::Char(c) => TextTokenView::Char(*c),
            TextToken::Special(s) => TextTokenView::Special(*s),
            TextToken::CharCode(n) => TextTokenView::CharCode(*n),
            TextToken::Toggle(t) => TextTokenView::Toggle(*t),
            TextToken::Break(b) => TextTokenView::Break(*b),
            TextToken::NonBreakingSpace => TextTokenView::NonBreakingSpace,
            TextToken::Stack { top, bottom, separator } => TextTokenView::Stack {
                top: top@,
                bottom: bottom@,
                separator: *separator,
            },
            TextToken::StackUnsplit(s) => TextTokenView::StackUnsplit(s@),
            TextToken::Property { code, value } => TextTokenView::Property {
                code: *code,
                value: value@,
            },
            TextToken::GroupStart => TextTokenView::GroupStart,
            TextToken::GroupEnd => TextTokenView::GroupEnd,
            TextToken::Unknown(s) => TextTokenView::Unknown(s@),
        }
    }
}

/// The views of a list of tokens.
pub open spec fn token_views(ts: Seq<TextToken>) -> Seq<TextTokenView> {
    ts.map_values(|t: TextToken| t@)
}

/// What `uncad_model::text::tokens` splits a TEXT's string into (percent
/// codes only, `TextKind::Line`), in order.
pub uninterp spec fn line_tokens(text: Seq<char>) -> Seq<TextTokenView>;

#[verifier::external_type_specification]
#[verifier::external_body]
pub struct ExToken<'a>(Token<'a>);

#[verifier::external_type_specification]
#[verifier::external_body]
pub struct ExSpecial(Special);

#[verifier::external_type_specification]
#[verifier::external_body]
pub struct ExToggle(Toggle);

#[verifier::external_type_specification]
#[verifier::external_body]
pub struct ExSwitch(Switch);

#[verifier::external_type_specification]
#[verifier::external_body]
pub struct ExBreak(Break);

/// `uncad_model::text::Special` as the library's sign, variant for variant.
#[verifier::external_body]
fn sign_of(s: Special) -> SpecialSign {
    match s {
        Special::Degree => SpecialSign::Degree,
        Special::PlusMinus => SpecialSign::PlusMinus,
        Special::Diameter => SpecialSign::Diameter,
    }
}

/// `uncad_model::text::Switch` as the library's, variant for variant.
#[verifier::external_body]
fn switch_of(s: Switch) -> SwitchState {
    match s {
        Switch::On => SwitchState::On,
        Switch::Off => SwitchState::Off,
        Switch::Flip => SwitchState::Flip,
    }
}

/// `uncad_model::text::Toggle` as the library's, variant for variant.
#[verifier::external_body]
fn toggle_of(t: Toggle) -> ToggleCode {
    match t {
        Toggle::Underline(s) => ToggleCode::Underline(switch_of(s)),
        Toggle::Overline(s) => ToggleCode::Overline(switch_of(s)),
        Toggle::StrikeThrough(s) => ToggleCode::StrikeThrough(switch_of(s)),
    }
}

/// `uncad_model::text::Break` as the library's, variant for variant.
#[verifier::external_body]
fn break_of(b: Break) -> LineBreak {
    match b {
        Break::Paragraph => LineBreak::Paragraph,
        Break::Column => LineBreak::Column,
        Break::DimensionLine => LineBreak::DimensionLine,
    }
}

/// `uncad_model::text::Token` as the library's token, variant for variant,
/// its borrowed strings copied.
#[verifier::external_body]
fn token_of(t: Token<'_>) -> TextToken {
    match t {
        Token::Char(c) => TextToken::Char(c),
        Token::Special(s) => TextToken::Special(sign_of(s)),
        Token::CharCode(n) => TextToken::CharCode(n),
        Token::Toggle(g) => TextToken::Toggle(toggle_of(g)),
        Token::Break(b) => TextToken::Break(break_of(b)),
        Token::NonBreakingSpace => TextToken::NonBreakingSpace,
        Token::Stack { top, bottom, separator } => TextToken::Stack { top: top.into(), bottom: bottom.into(), separator },
        Token::StackUnsplit(body) => TextToken::StackUnsplit(body.into()),
        Token::Property { code, value } => TextToken::Property { code, value: value.into() },
        Token::GroupStart => TextToken::GroupStart,
        Token::GroupEnd => TextToken::GroupEnd,
        Token::Unknown(raw) => TextToken::Unknown(raw.into())
    }
}

/// `text` holds a percent code's start: `%%` somewhere in it.
pub open spec fn has_percent_code(text: Seq<char>) -> bool {
    exists|i: int, j: int| 0 <= i && j == i + 1 && j < text.len() && #[trigger] text[i] == '%' && #[trigger] text[j] == '%'
}

/// `ts` is each character of `cs` as a token of its own.
pub open spec fn each_char(ts: Seq<TextTokenView>, cs: Seq<char>) -> bool {
    &&& ts.len() == cs.len()
    &&& forall|i: int| 0 <= i < ts.len() ==> (#[trigger] ts[i] matches TextTokenView::Char(c) && c == cs[i])
}

/// `uncad_model::text::tokens(text, TextKind::Line)`, collected: the
/// tokens of a TEXT's string, in order. What they are is the model's
/// tokenizer's and is named, not stated; the one fact stated beside the
/// name is what the tokenizer's documentation and source give plainly: in
/// a TEXT's string only percent codes are codes, so a string with no `%%`
/// is each of its characters as it stands.
#[verifier::external_body]
fn line_text_tokens(text: &str) -> (r: Vec<TextToken>)
    ensures
        token_views(r@) == line_tokens(text@),
        !has_percent_code(text@) ==> each_char(token_views(r@), text@),
{
    tokens(text, TextKind::Line).map(token_of).collect()
}

/// The character for a decimal digit.
pub open spec fn digit_char(d: nat) -> char {
    if d == 0 {
        '0'
    } else if d == 1 {
        '1'
    } else if d == 2 {
        '2'
    } else if d == 3 {
        '3'
    } else if d == 4 {
        '4'
    } else if d == 5 {
        '5'
    } else if d == 6 {
        '6'
    } else if d == 7 {
        '7'
    } else if d == 8 {
        '8'
    } else {
        '9'
    }
}

/// `n` in decimal, without leading zeros.
pub open spec fn decimal(n: nat) -> Seq<char>
    decreases n,
{
    if n < 10 {
        seq![digit_char(n)]
    } else {
        decimal(n / 10).push(digit_char(n % 10))
    }
}

/// `n` in decimal, padded with zeros to at least three digits.
pub open spec fn decimal3(n: nat) -> Seq<char> {
    if n < 10 {
        seq!['0', '0'] + decimal(n)
    } else if n < 100 {
        seq!['0'] + decimal(n)
    } else {
        decimal(n)
    }
}

/// What one token reads as in plain text: a sign for a percent code that
/// names one, `%%nnn` as written, a space for a break, a stack as
/// `top/bottom`, the covered text for anything unknown, and nothing for a
/// switch, a property or a group.
pub open spec fn plain_piece(t: TextTokenView) -> Seq<char> {
    match t {
        TextTokenView::Char(c) => seq![c],
        TextTokenView::Special(SpecialSign::Degree) => seq!['\u{b0}'],
        TextTokenView::Special(SpecialSign::PlusMinus) => seq!['\u{b1}'],
        TextTokenView::Special(SpecialSign::Diameter) => seq!['\u{2300}'],
        TextTokenView::CharCode(code) => seq!['%', '%'] + decimal3(code as nat),
        TextTokenView::Unknown(raw) => raw,
        TextTokenView::Break(_) => seq![' '],
        TextTokenView::NonBreakingSpace => seq![' '],
        TextTokenView::Stack { top, bottom, .. } => top + seq!['/'] + bottom,
        TextTokenView::StackUnsplit(body) => body,
        TextTokenView::Toggle(_) => Seq::empty(),
        TextTokenView::Property { .. } => Seq::empty(),
        TextTokenView::GroupStart => Seq::empty(),
        TextTokenView::GroupEnd => Seq::empty(),
    }
}

/// The plain text of a list of tokens: their pieces, in order.
pub open spec fn plain_of(ts: Seq<TextTokenView>) -> Seq<char>
    decreases ts.len(),
{
    if ts.len() == 0 {
        Seq::empty()
    } else {
        plain_of(ts.drop_last()) + plain_piece(ts.last())
    }
}

/// What a TEXT or ATTRIB string reads as without its codes.
pub open spec fn plain_text_of(text: Seq<char>) -> Seq<char> {
    plain_of(line_tokens(text))
}

/// Adds `c` to the end of `s` (`String::push`).
#[verifier::external_body]
fn push_char(s: &mut String, c: char)
    ensures
        final(s)@ == old(s)@.push(c),
{
    s.push(c);
}

/// Adds `t` to the end of `s`.
fn push_str(s: &mut String, t: &str)
    ensures
        final(s)@ == old(s)@ + t@,
{
    let n = t.unicode_len();
    let mut i: usize = 0;
    let ghost start = s@;
    while i < n
        invariant
            n == t@.len(),
            i <= n,
            s@ == start + t@.subrange(0, i as int),
        decreases n - i,
    {
        let c = t.get_char(i);
        push_char(s, c);
        assert(t@.subrange(0, i + 1) =~= t@.subrange(0, i as int).push(c));
        i = i + 1;
    }
    assert(t@.subrange(0, n as int) =~= t@);
}

fn digit(d: u16) -> (c: char)
    requires
        d < 10,
    ensures
        c == digit_char(d as nat),
{
    if d == 0 {
        '0'
    } else if d == 1 {
        '1'
    } else if d == 2 {
        '2'
    } else if d == 3 {
        '3'
    } else if d == 4 {
        '4'
    } else if d == 5 {
        '5'
    } else if d == 6 {
        '6'
    } else if d == 7 {
        '7'
    } else if d == 8 {
        '8'
    } else {
        '9'
    }
}

fn push_decimal(s: &mut String, n: u16)
    ensures
        final(s)@ == old(s)@ + decimal(n as nat),
    decreases n,
{
    if n >= 10 {
        push_decimal(s, n / 10);
    }
    push_char(s, digit(n % 10));
    assert(s@ =~= old(s)@ + decimal(n as nat));
}

/// Adds what `t` reads as in plain text to the end of `s`.
fn push_plain_piece(s: &mut String, t: &TextToken)
    ensures
        final(s)@ == old(s)@ + plain_piece(t@),
{
    match t {
        TextToken::Char(c) => push_char(s, *c),
        TextToken::Special(SpecialSign::Degree) => push_char(s, '\u{b0}'),
        TextToken::Special(SpecialSign::PlusMinus) => push_char(s, '\u{b1}'),
        TextToken::Special(SpecialSign::Diameter) => push_char(s, '\u{2300}'),
        TextToken::CharCode(code) => {
            push_char(s, '%');
            push_char(s, '%');
            if *code < 10 {
                push_char(s, '0');
                push_char(s, '0');
            } else if *code < 100 {
                push_char(s, '0');
            }
            push_decimal(s, *code);
        },
        TextToken::Unknown(raw) => push_str(s, raw.as_str()),
        TextToken::Break(_) => push_char(s, ' '),
        TextToken::NonBreakingSpace => push_char(s, ' '),
        TextToken::Stack { top, bottom, .. } => {
            push_str(s, top.as_str());
            push_char(s, '/');
            push_str(s, bottom.as_str());
        },
        TextToken::StackUnsplit(body) => push_str(s, body.as_str()),
        TextToken::Toggle(_) => {},
        TextToken::Property { .. } => {},
        TextToken::GroupStart => {},
        TextToken::GroupEnd => {},
    }
    assert(s@ =~= old(s)@ + plain_piece(t@));
}

/// The plain text of a list of tokens: each token's piece, in order (see
/// [`plain_piece`]).
pub fn plain_of_tokens(tokens: &Vec<TextToken>) -> (r: String)
    ensures
        r@ == plain_of(token_views(tokens@)),
{
    let mut out = String::new();
    let mut i: usize = 0;
    while i < tokens.len()
        invariant
            i <= tokens.len(),
            out@ == plain_of(token_views(tokens@).subrange(0, i as int)),
        decreases tokens.len() - i,
    {
        let ghost before = token_views(tokens@).subrange(0, i as int);
        push_plain_piece(&mut out, &tokens[i]);
        proof {
            let next = token_views(tokens@).subrange(0, i + 1);
            assert(next.drop_last() =~= before);
            assert(next.last() == tokens@[i as int]@);
        }
        i = i + 1;
    }
    assert(token_views(tokens@).subrange(0, tokens.len() as int) =~= token_views(tokens@));
    out
}

/// What a TEXT or ATTRIB reads as, without the codes it is written in: the
/// characters, with `%%d`, `%%p` and `%%c` as the degree, plus-minus and
/// diameter signs they name and underline and overline switches dropped.
/// `%%nnn` stays as written -- which character it draws depends on the
/// font. This is what labels are matched by and values returned as; the
/// text as written stays beside it.
pub fn plain_text(text: &str) -> (r: String)
    ensures
        r@ == plain_text_of(text@),
        !has_percent_code(text@) ==> r@ == text@,
{
    let tokens = line_text_tokens(text);
    proof {
        if !has_percent_code(text@) {
            lemma_plain_of_chars(token_views(tokens@), text@);
        }
    }
    plain_of_tokens(&tokens)
}

/// Characters with no code among them read as themselves.
pub proof fn lemma_plain_of_chars(ts: Seq<TextTokenView>, cs: Seq<char>)
    requires
        each_char(ts, cs),
    ensures
        plain_of(ts) == cs,
    decreases cs.len(),
{
    if cs.len() == 0 {
        assert(cs =~= Seq::<char>::empty());
    } else {
        let (tr, cr) = (ts.drop_last(), cs.drop_last());
        assert forall|i: int| 0 <= i < tr.len() implies (#[trigger] tr[i] matches TextTokenView::Char(c) && c == cr[i]) by {
            assert(tr[i] == ts[i] && cr[i] == cs[i]);
        }
        lemma_plain_of_chars(tr, cr);
        assert(ts[ts.len() - 1] matches TextTokenView::Char(c) && c == cs[cs.len() - 1]);
        assert(plain_piece(ts.last()) == seq![cs.last()]);
        assert(cr.push(cs.last()) =~= cs);
    }
}

/// Plain text reads token by token: what two runs of tokens read as, one
/// after the other, is what each reads as, one after the other.
pub proof fn lemma_plain_of_append(a: Seq<TextTokenView>, b: Seq<TextTokenView>)
    ensures
        plain_of(a + b) == plain_of(a) + plain_of(b),
    decreases b.len(),
{
    if b.len() == 0 {
        assert(a + b =~= a);
        assert(plain_of(b) =~= Seq::<char>::empty());
        assert(plain_of(a) + plain_of(b) =~= plain_of(a));
    } else {
        lemma_plain_of_append(a, b.drop_last());
        assert((a + b).drop_last() =~= a + b.drop_last());
        assert((a + b).last() == b.last());
        assert(plain_of(a + b) =~= plain_of(a) + plain_of(b));
    }
}

/// A switch of how the text is drawn -- underline, overline or
/// strike-through, on, off or flipped -- reads as nothing: taking one out
/// of a text, wherever it stands, leaves what the text reads as unchanged.
pub proof fn lemma_switches_read_as_nothing(a: Seq<TextTokenView>, t: ToggleCode, b: Seq<TextTokenView>)
    ensures
        plain_of(a + seq![TextTokenView::Toggle(t)] + b) == plain_of(a + b),
{
    let one = seq![TextTokenView::Toggle(t)];
    lemma_plain_of_append(a + one, b);
    lemma_plain_of_append(a, one);
    lemma_plain_of_append(a, b);
    assert(one.len() == 1);
    assert(one.drop_last() =~= Seq::<TextTokenView>::empty());
    assert(plain_of(one.drop_last()) =~= Seq::<char>::empty());
    assert(one.last() is Toggle);
    assert(plain_piece(one.last()) =~= Seq::<char>::empty());
    assert(plain_of(one) =~= Seq::<char>::empty());
    assert(plain_of(a) + plain_of(one) =~= plain_of(a));
}

} // verus!
