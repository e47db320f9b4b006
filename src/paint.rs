//! Terminal colouring, and what a coloured string shows once its escape
//! codes are taken out.
use colored::Colorize;
use vstd::prelude::*;

verus! {

/// The foreground colours the listing uses.
#[derive(Clone, Copy, Debug, PartialEq, Eq, Structural)]
pub enum Hue {
    Red,
    Green,
    Yellow,
    Blue,
    Magenta,
    Cyan,
}

/// The SGR parameter that selects a hue as foreground colour.
pub open spec fn hue_code(h: Hue) -> Seq<char> {
    match h {
        Hue::Red => seq!['3', '1'],
        Hue::Green => seq!['3', '2'],
        Hue::Yellow => seq!['3', '3'],
        Hue::Blue => seq!['3', '4'],
        Hue::Magenta => seq!['3', '5'],
        Hue::Cyan => seq!['3', '6'],
    }
}

/// The parameters of bold text in a hue.
pub open spec fn bold_code(h: Hue) -> Seq<char> {
    seq!['1', ';'] + hue_code(h)
}

/// An escape sequence `ESC [ params m`.
pub open spec fn sgr(params: Seq<char>) -> Seq<char> {
    seq!['\x1B', '['] + params + seq!['m']
}

/// `text` wrapped in the given style and followed by a reset.
pub open spec fn painted(text: Seq<char>, params: Seq<char>) -> Seq<char> {
    sgr(params) + text + sgr(seq!['0'])
}

pub open spec fn no_escape(s: Seq<char>) -> bool {
    forall|i: int| 0 <= i < s.len() ==> s[i] != '\x1B'
}

/// Whether a reader of `c` is inside an escape sequence, given whether it was
/// before `c`.
pub open spec fn step(c: char, in_code: bool) -> bool {
    if in_code {
        c != 'm'
    } else {
        c == '\x1B'
    }
}

/// The visible characters of `s`, read from the given state.
pub open spec fn strip_from(s: Seq<char>, in_code: bool) -> Seq<char>
    decreases s.len(),
{
    if s.len() == 0 {
        Seq::empty()
    } else if in_code || s[0] == '\x1B' {
        strip_from(s.drop_first(), step(s[0], in_code))
    } else {
        seq![s[0]] + strip_from(s.drop_first(), false)
    }
}

/// The state of the reader after `s`.
pub open spec fn state_after(s: Seq<char>, in_code: bool) -> bool
    decreases s.len(),
{
    if s.len() == 0 {
        in_code
    } else {
        state_after(s.drop_first(), step(s[0], in_code))
    }
}

/// What a terminal shows of `s`: `s` without its escape sequences.
pub open spec fn strip_ansi(s: Seq<char>) -> Seq<char> {
    strip_from(s, false)
}

/// Text that is either shown as it is or wrapped in one style.
pub open spec fn plain_or_painted(r: Seq<char>, text: Seq<char>, params: Seq<char>) -> bool {
    r == text || r == painted(text, params)
}

pub proof fn lemma_strip_append(a: Seq<char>, b: Seq<char>, st: bool)
    ensures
        strip_from(a + b, st) == strip_from(a, st) + strip_from(b, state_after(a, st)),
        state_after(a + b, st) == state_after(b, state_after(a, st)),
    decreases a.len(),
{
    if a.len() == 0 {
        assert(a + b =~= b);
        assert(strip_from(a, st) =~= Seq::<char>::empty());
    } else {
        assert((a + b).drop_first() =~= a.drop_first() + b);
        assert((a + b)[0] == a[0]);
        lemma_strip_append(a.drop_first(), b, step(a[0], st));
        if !(st || a[0] == '\x1B') {
            assert(seq![a[0]] + (strip_from(a.drop_first(), false) + strip_from(
                b,
                state_after(a.drop_first(), false),
            )) =~= (seq![a[0]] + strip_from(a.drop_first(), false)) + strip_from(
                b,
                state_after(a.drop_first(), false),
            ));
        }
    }
}

/// Text without escape characters is shown as it is.
pub proof fn lemma_strip_plain(s: Seq<char>)
    requires
        no_escape(s),
    ensures
        strip_from(s, false) == s,
        state_after(s, false) == false,
    decreases s.len(),
{
    if s.len() > 0 {
        lemma_strip_plain(s.drop_first());
        assert(seq![s[0]] + s.drop_first() =~= s);
    }
}

/// Parameters without an `m` stay inside the escape sequence.
pub proof fn lemma_strip_params(p: Seq<char>)
    requires
        forall|i: int| 0 <= i < p.len() ==> p[i] != 'm',
    ensures
        strip_from(p, true) == Seq::<char>::empty(),
        state_after(p, true) == true,
    decreases p.len(),
{
    if p.len() > 0 {
        lemma_strip_params(p.drop_first());
    }
}

pub proof fn lemma_strip_sgr(p: Seq<char>)
    requires
        forall|i: int| 0 <= i < p.len() ==> p[i] != 'm',
    ensures
        strip_from(sgr(p), false) == Seq::<char>::empty(),
        state_after(sgr(p), false) == false,
{
    let head = seq!['\x1B', '['];
    let tail = seq!['m'];
    lemma_strip_append(head, p + tail, false);
    lemma_strip_append(p, tail, true);
    lemma_strip_params(p);
    assert(head + p + tail =~= head + (p + tail));
    let h1 = head.drop_first();
    assert(h1 =~= seq!['[']);
    assert(h1.drop_first() =~= Seq::<char>::empty());
    assert(tail.drop_first() =~= Seq::<char>::empty());
    assert(strip_from(h1.drop_first(), true) == Seq::<char>::empty());
    assert(strip_from(h1, true) == Seq::<char>::empty());
    assert(strip_from(head, false) == Seq::<char>::empty());
    assert(state_after(h1.drop_first(), true));
    assert(state_after(h1, true));
    assert(state_after(head, false));
    assert(tail[0] == 'm');
    assert(strip_from(tail.drop_first(), false) == Seq::<char>::empty());
    assert(strip_from(tail, true) == Seq::<char>::empty());
    assert(!state_after(tail.drop_first(), false));
    assert(!state_after(tail, true));
}

/// A painted text shows exactly the text.
pub proof fn lemma_strip_painted(text: Seq<char>, params: Seq<char>)
    requires
        no_escape(text),
        forall|i: int| 0 <= i < params.len() ==> params[i] != 'm',
    ensures
        strip_from(painted(text, params), false) == text,
        state_after(painted(text, params), false) == false,
{
    let open = sgr(params);
    let close = sgr(seq!['0']);
    lemma_strip_sgr(params);
    lemma_strip_sgr(seq!['0']);
    lemma_strip_plain(text);
    lemma_strip_append(open, text, false);
    lemma_strip_append(open + text, close, false);
    assert(Seq::<char>::empty() + text =~= text);
    assert(text + Seq::<char>::empty() =~= text);
}

/// Text shown as it is or in one style shows exactly the text.
pub proof fn lemma_strip_styled(r: Seq<char>, text: Seq<char>, h: Hue, bold: bool)
    requires
        no_escape(text),
        plain_or_painted(r, text, if bold { bold_code(h) } else { hue_code(h) }),
    ensures
        strip_from(r, false) == text,
        state_after(r, false) == false,
{
    let p = if bold { bold_code(h) } else { hue_code(h) };
    assert forall|i: int| 0 <= i < p.len() implies p[i] != 'm' by {}
    if r == text {
        lemma_strip_plain(text);
    } else {
        lemma_strip_painted(text, p);
    }
}

/// Relies on colored's `Colorize::color` and on the `Display` of
/// `ColoredString`: the text comes back unchanged when colouring is off, and
/// otherwise between the hue's escape sequence and a reset.
#[verifier::external_body]
pub(crate) fn paint(text: &str, hue: Hue) -> (r: String)
    ensures
        no_escape(text@) ==> plain_or_painted(r@, text@, hue_code(hue)),
{
    let c = match hue {
        Hue::Red => colored::Color::Red,
        Hue::Green => colored::Color::Green,
        Hue::Yellow => colored::Color::Yellow,
        Hue::Blue => colored::Color::Blue,
        Hue::Magenta => colored::Color::Magenta,
        Hue::Cyan => colored::Color::Cyan,
    };
    text.color(c).to_string()
}

/// Relies on colored's `Colorize::color` and `Colorize::bold` and on the
/// `Display` of `ColoredString`: the text comes back unchanged when colouring
/// is off, and otherwise after `ESC[1;<hue>m` and before a reset.
#[verifier::external_body]
pub(crate) fn paint_bold(text: &str, hue: Hue) -> (r: String)
    ensures
        no_escape(text@) ==> plain_or_painted(r@, text@, bold_code(hue)),
{
    let c = match hue {
        Hue::Red => colored::Color::Red,
        Hue::Green => colored::Color::Green,
        Hue::Yellow => colored::Color::Yellow,
        Hue::Blue => colored::Color::Blue,
        Hue::Magenta => colored::Color::Magenta,
        Hue::Cyan => colored::Color::Cyan,
    };
    text.color(c).bold().to_string()
}

} // verus!
