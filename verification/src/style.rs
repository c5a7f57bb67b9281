//! Text with colors in it, as messages and listings show it on a terminal.

use crate::frontend::lexer::is_digit;
use colored::Colorize;
use vstd::prelude::*;

verus! {

/// The colors that output uses.
#[derive(Debug, Clone, Copy, PartialEq, Eq, Structural)]
pub enum Shade {
    Red,
    Green,
    Yellow,
    Blue,
    Magenta,
    Cyan,
    White,
    BrightBlack,
    BrightRed,
    BrightGreen,
    BrightYellow,
    BrightWhite,
}

/// The number of a color in a terminal's control sequences.
pub open spec fn shade_code(shade: Shade) -> Seq<char> {
    match shade {
        Shade::Red => seq!['3', '1'],
        Shade::Green => seq!['3', '2'],
        Shade::Yellow => seq!['3', '3'],
        Shade::Blue => seq!['3', '4'],
        Shade::Magenta => seq!['3', '5'],
        Shade::Cyan => seq!['3', '6'],
        Shade::White => seq!['3', '7'],
        Shade::BrightBlack => seq!['9', '0'],
        Shade::BrightRed => seq!['9', '1'],
        Shade::BrightGreen => seq!['9', '2'],
        Shade::BrightYellow => seq!['9', '3'],
        Shade::BrightWhite => seq!['9', '7'],
    }
}

/// The control sequence that switches to a color.
pub open spec fn switch_to(shade: Shade) -> Seq<char> {
    seq!['\x1b', '['] + shade_code(shade) + seq!['m']
}

/// The control sequence that switches back.
pub open spec fn switch_back() -> Seq<char> {
    seq!['\x1b', '[', '0', 'm']
}

/// A text in which a color is switched to again wherever it was switched back
/// from.
pub open spec fn resumed(text: Seq<char>, shade: Shade) -> Seq<char>
    decreases text.len(),
{
    if text.len() == 0 {
        Seq::empty()
    } else if text.len() >= 4 && text.take(4) == switch_back() {
        switch_back() + switch_to(shade) + resumed(text.skip(4), shade)
    } else {
        seq![text[0]] + resumed(text.drop_first(), shade)
    }
}

/// A text in a color.
pub open spec fn painted(text: Seq<char>, shade: Shade) -> Seq<char> {
    switch_to(shade) + resumed(text, shade) + switch_back()
}

/// `Colorize::color` and the `Display` of `ColoredString`: the text as it is
/// where the terminal or the environment asks for no colors, else the text
/// between the color's control sequence and the one that switches back, with
/// the color taken up again behind every inner switch back.
#[verifier::external_body]
pub(crate) fn paint(text: &str, shade: Shade) -> (r: String)
    ensures
        r@ == text@ || r@ == painted(text@, shade),
{
    let color = match shade {
        Shade::Red => colored::Color::Red,
        Shade::Green => colored::Color::Green,
        Shade::Yellow => colored::Color::Yellow,
        Shade::Blue => colored::Color::Blue,
        Shade::Magenta => colored::Color::Magenta,
        Shade::Cyan => colored::Color::Cyan,
        Shade::White => colored::Color::White,
        Shade::BrightBlack => colored::Color::BrightBlack,
        Shade::BrightRed => colored::Color::BrightRed,
        Shade::BrightGreen => colored::Color::BrightGreen,
        Shade::BrightYellow => colored::Color::BrightYellow,
        Shade::BrightWhite => colored::Color::BrightWhite,
    };
    text.color(color).to_string()
}

/// A piece of text, or pieces in a color.
pub enum Styled {
    Text(String),
    Paint(Shade, Vec<Styled>),
}

/// What a [`Styled`] is.
pub enum StyledView {
    Text(Seq<char>),
    Paint(Shade, Seq<StyledView>),
}

impl View for Styled {
    type V = StyledView;

    open spec fn view(&self) -> StyledView
        decreases self,
    {
        match *self {
            Styled::Text(text) => StyledView::Text(text@),
            Styled::Paint(shade, parts) => StyledView::Paint(
                shade,
                Seq::new(
                    parts@.len(),
                    |i: int|
                        if 0 <= i < parts@.len() {
                            parts@[i]@
                        } else {
                            StyledView::Text(Seq::empty())
                        },
                ),
            ),
        }
    }
}

/// What a list of pieces is.
pub open spec fn doc(parts: Seq<Styled>) -> Seq<StyledView> {
    Seq::new(parts.len(), |i: int| parts[i]@)
}

/// The first `n` of the pieces without their colors.
pub open spec fn plain_upto(parts: Seq<StyledView>, n: nat) -> Seq<char>
    decreases parts, n,
{
    if n == 0 || n > parts.len() {
        Seq::empty()
    } else {
        plain_upto(parts, (n - 1) as nat) + (match parts[n - 1] {
            StyledView::Text(text) => text,
            StyledView::Paint(_, inner) => plain_upto(inner, inner.len()),
        })
    }
}

/// The pieces without their colors.
pub open spec fn plain(parts: Seq<StyledView>) -> Seq<char> {
    plain_upto(parts, parts.len())
}

/// Whether `out` is a text, in a color or plain.
pub open spec fn in_color(out: Seq<char>, text: Seq<char>, shade: Shade) -> bool {
    out == text || out == painted(text, shade)
}

/// Whether `out` is one text behind another.
pub open spec fn is_concat(out: Seq<char>, head: Seq<char>, tail: Seq<char>) -> bool {
    out == head + tail
}

/// Whether `out` shows the first `n` of the pieces, each in its color or plain.
pub open spec fn shows_upto(out: Seq<char>, parts: Seq<StyledView>, n: nat) -> bool
    decreases parts, n,
{
    if n == 0 || n > parts.len() {
        out == Seq::<char>::empty()
    } else {
        match parts[n - 1] {
            StyledView::Text(text) => {
                let start = out.len() - text.len();
                &&& start >= 0
                &&& out.skip(start) == text
                &&& shows_upto(out.take(start), parts, (n - 1) as nat)
            },
            StyledView::Paint(shade, inner) => exists|head: Seq<char>, tail: Seq<char>, text: Seq<char>|
                #![trigger is_concat(out, head, tail), in_color(tail, text, shade)]
                {
                    &&& is_concat(out, head, tail)
                    &&& in_color(tail, text, shade)
                    &&& shows_upto(head, parts, (n - 1) as nat)
                    &&& shows_upto(text, inner, inner.len())
                },
        }
    }
}

/// Whether `out` shows the pieces, each in its color or plain.
pub open spec fn shows(out: Seq<char>, parts: Seq<StyledView>) -> bool {
    shows_upto(out, parts, parts.len())
}

proof fn lemma_shows_text(head: Seq<char>, parts: Seq<StyledView>, n: nat, text: Seq<char>)
    requires
        n < parts.len(),
        shows_upto(head, parts, n),
        parts[n as int] == StyledView::Text(text),
    ensures
        shows_upto(head + text, parts, n + 1),
{
    let out = head + text;
    assert(out.skip(out.len() - text.len()) =~= text);
    assert(out.take(out.len() - text.len()) =~= head);
}

proof fn lemma_shows_paint(
    head: Seq<char>,
    parts: Seq<StyledView>,
    n: nat,
    shade: Shade,
    inner: Seq<StyledView>,
    text: Seq<char>,
    tail: Seq<char>,
)
    requires
        n < parts.len(),
        shows_upto(head, parts, n),
        parts[n as int] == StyledView::Paint(shade, inner),
        shows_upto(text, inner, inner.len()),
        in_color(tail, text, shade),
    ensures
        shows_upto(head + tail, parts, n + 1),
{
    assert(is_concat(head + tail, head, tail));
}

/// The pieces as they go to a terminal.
pub fn render(parts: &Vec<Styled>) -> (r: String)
    ensures
        shows(r@, doc(parts@)),
    decreases parts,
{
    let mut out = String::new();
    let mut i: usize = 0;
    assert(out@ =~= Seq::<char>::empty());
    while i < parts.len()
        invariant
            0 <= i <= parts@.len(),
            shows_upto(out@, doc(parts@), i as nat),
        decreases parts@.len() - i,
    {
        let ghost head = out@;
        let ghost parts_view = doc(parts@);
        assert(parts_view[i as int] == parts@[i as int]@);
        match &parts[i] {
            Styled::Text(text) => {
                out.append(text.as_str());
                proof {
                    lemma_shows_text(head, parts_view, i as nat, text@);
                }
            }
            Styled::Paint(shade, inner) => {
                let text = render(inner);
                let shown = paint(text.as_str(), *shade);
                out.append(shown.as_str());
                proof {
                    assert(parts_view[i as int]->Paint_1 =~= doc(inner@));
                    assert(shows_upto(text@, doc(inner@), doc(inner@).len()));
                    lemma_shows_paint(
                        head,
                        parts_view,
                        i as nat,
                        *shade,
                        doc(inner@),
                        text@,
                        shown@,
                    );
                }
            }
        }
        i = i + 1;
    }
    out
}

/// A character that a terminal prints.
pub open spec fn prints(c: char) -> bool {
    let n = c as u32;
    32 <= n < 127 || 160 <= n
}

/// The length of the control sequence for colors that a text starts with, or
/// zero.
pub open spec fn switch_length(text: Seq<char>) -> nat {
    if text.len() >= 4 && text[0] == '\x1b' && text[1] == '[' && is_digit(text[2]) {
        if text[3] == 'm' {
            4
        } else if text.len() >= 5 && is_digit(text[3]) && text[4] == 'm' {
            5
        } else {
            0
        }
    } else {
        0
    }
}

/// A text without its control sequences for colors, if it holds only these
/// and characters that print or break lines.
pub open spec fn stripped(text: Seq<char>) -> Option<Seq<char>>
    decreases text.len(),
{
    if text.len() == 0 {
        Some(Seq::empty())
    } else if switch_length(text) > 0 {
        stripped(text.skip(switch_length(text) as int))
    } else if prints(text[0]) || text[0] == '\n' {
        match stripped(text.drop_first()) {
            Some(rest) => Some(seq![text[0]] + rest),
            None => None,
        }
    } else {
        None
    }
}

/// What `strip_ansi_escapes::strip_str` makes of a text.
pub uninterp spec fn strip_of(text: Seq<char>) -> Seq<char>;

/// `strip_ansi_escapes::strip_str` takes control sequences out of a text. Its
/// result depends on the text alone. What it makes of other sequences than those
/// for colors, and of other control characters than line breaks, is only named.
#[verifier::external_body]
pub(crate) fn strip(text: &str) -> (r: String)
    ensures
        r@ == strip_of(text@),
        stripped(text@) is Some ==> r@ == stripped(text@)->0,
{
    strip_ansi_escapes::strip_str(text)
}

/// Whether every character of a text prints or breaks a line.
pub open spec fn printable(text: Seq<char>) -> bool {
    forall|i: int| 0 <= i < text.len() ==> prints(#[trigger] text[i]) || text[i] == '\n'
}

/// Taking the control sequences out of two texts takes them out of both
/// together.
proof fn lemma_stripped_concat(a: Seq<char>, b: Seq<char>)
    requires
        stripped(a) is Some,
    ensures
        stripped(a + b) == (match stripped(b) {
            Some(rest) => Some(stripped(a)->0 + rest),
            None => None,
        }),
    decreases a.len(),
{
    let c = a + b;
    if a.len() == 0 {
        assert(c =~= b);
        assert(stripped(a)->0 =~= Seq::<char>::empty());
        if let Some(rest) = stripped(b) {
            assert(Seq::<char>::empty() + rest =~= rest);
        }
    } else if switch_length(a) > 0 {
        let n = switch_length(a) as int;
        assert(switch_length(c) == n);
        assert(c.skip(n) =~= a.skip(n) + b);
        lemma_stripped_concat(a.skip(n), b);
    } else {
        assert(c[0] == a[0]);
        assert(a[0] != '\x1b');
        assert(switch_length(c) == 0);
        assert(c.drop_first() =~= a.drop_first() + b);
        lemma_stripped_concat(a.drop_first(), b);
        if let Some(rest) = stripped(b) {
            let head = seq![a[0]];
            let tail = stripped(a.drop_first())->0;
            assert(head + (tail + rest) =~= (head + tail) + rest);
        }
    }
}

proof fn lemma_stripped_printable(text: Seq<char>)
    requires
        printable(text),
    ensures
        stripped(text) == Some(text),
    decreases text.len(),
{
    if text.len() > 0 {
        assert(prints(text[0]) || text[0] == '\n');
        assert(switch_length(text) == 0);
        let rest = text.drop_first();
        assert forall|i: int| 0 <= i < rest.len() implies prints(#[trigger] rest[i]) || rest[i]
            == '\n' by {
            assert(rest[i] == text[i + 1]);
        }
        lemma_stripped_printable(rest);
        assert(seq![text[0]] + rest =~= text);
    } else {
        assert(text =~= Seq::<char>::empty());
    }
}

proof fn lemma_stripped_switch(text: Seq<char>, n: int)
    requires
        n == switch_length(text),
        n == text.len(),
        n > 0,
    ensures
        stripped(text) == Some(Seq::<char>::empty()),
{
    assert(text.skip(n) =~= Seq::<char>::empty());
    assert(stripped(Seq::<char>::empty()) == Some(Seq::<char>::empty()));
}

/// Switching colors adds nothing to what remains without control sequences.
proof fn lemma_stripped_resumed(text: Seq<char>, shade: Shade)
    requires
        stripped(text) is Some,
    ensures
        stripped(resumed(text, shade)) == stripped(text),
    decreases text.len(),
{
    if text.len() == 0 {
    } else if text.len() >= 4 && text.take(4) == switch_back() {
        assert(text[0] == text.take(4)[0] && text[1] == text.take(4)[1] && text[2] == text.take(
            4,
        )[2] && text[3] == text.take(4)[3]);
        assert(switch_length(text) == 4);
        lemma_stripped_resumed(text.skip(4), shade);
        lemma_stripped_switch(switch_back(), 4);
        lemma_stripped_switch(switch_to(shade), 5);
        let rest = resumed(text.skip(4), shade);
        lemma_stripped_concat(switch_back(), switch_to(shade));
        lemma_stripped_concat(switch_back() + switch_to(shade), rest);
        assert(Seq::<char>::empty() + Seq::<char>::empty() =~= Seq::<char>::empty());
        assert(Seq::<char>::empty() + stripped(rest)->0 =~= stripped(rest)->0);
    } else if switch_length(text) == 5 {
        let a = text.take(5);
        assert(switch_length(a) == 5);
        lemma_stripped_switch(a, 5);
        assert(text[0] == '\x1b');
        let r = resumed(text.skip(5), shade);
        lemma_resumed_prefix(text, 5, shade);
        lemma_stripped_resumed(text.skip(5), shade);
        lemma_stripped_concat(a, r);
        assert(Seq::<char>::empty() + stripped(r)->0 =~= stripped(r)->0);
    } else if switch_length(text) == 4 {
        let a = text.take(4);
        assert(switch_length(a) == 4);
        lemma_stripped_switch(a, 4);
        let r = resumed(text.skip(4), shade);
        lemma_resumed_prefix(text, 4, shade);
        lemma_stripped_resumed(text.skip(4), shade);
        lemma_stripped_concat(a, r);
        assert(Seq::<char>::empty() + stripped(r)->0 =~= stripped(r)->0);
    } else {
        lemma_stripped_resumed(text.drop_first(), shade);
        let one = seq![text[0]];
        assert(printable(one));
        lemma_stripped_printable(one);
        lemma_stripped_concat(one, resumed(text.drop_first(), shade));
    }
}

/// No color is taken up again within characters that switch nothing back.
proof fn lemma_resumed_prefix(text: Seq<char>, n: int, shade: Shade)
    requires
        1 <= n <= text.len(),
        !(text.len() >= 4 && text.take(4) == switch_back()),
        forall|i: int| 1 <= i < n ==> text[i] != '\x1b',
    ensures
        resumed(text, shade) == text.take(n) + resumed(text.skip(n), shade),
    decreases n,
{
    let rest = text.drop_first();
    if n == 1 {
        assert(text.take(1) =~= seq![text[0]]);
        assert(text.skip(1) =~= rest);
    } else {
        assert(rest[0] != '\x1b');
        if rest.len() >= 4 {
            assert(rest.take(4)[0] == rest[0]);
            assert(switch_back()[0] == '\x1b');
        }
        lemma_resumed_prefix(rest, n - 1, shade);
        assert(rest.skip(n - 1) =~= text.skip(n));
        assert(text.take(n) =~= seq![text[0]] + rest.take(n - 1));
        assert(seq![text[0]] + (rest.take(n - 1) + resumed(text.skip(n), shade)) =~= (seq![text[0]]
            + rest.take(n - 1)) + resumed(text.skip(n), shade));
    }
}

proof fn lemma_stripped_painted(text: Seq<char>, shade: Shade)
    requires
        stripped(text) is Some,
    ensures
        stripped(painted(text, shade)) == stripped(text),
{
    let none = Seq::<char>::empty();
    lemma_stripped_switch(switch_back(), 4);
    lemma_stripped_switch(switch_to(shade), 5);
    lemma_stripped_resumed(text, shade);
    lemma_stripped_concat(switch_to(shade), resumed(text, shade));
    lemma_stripped_concat(switch_to(shade) + resumed(text, shade), switch_back());
    assert(none + stripped(text)->0 =~= stripped(text)->0);
    assert(stripped(text)->0 + none =~= stripped(text)->0);
}

proof fn lemma_stripped_shown(out: Seq<char>, parts: Seq<StyledView>, n: nat)
    requires
        shows_upto(out, parts, n),
        n <= parts.len(),
        printable(plain_upto(parts, n)),
    ensures
        stripped(out) == Some(plain_upto(parts, n)),
    decreases parts, n,
{
    if n == 0 {
        assert(out =~= Seq::<char>::empty());
    } else {
        let first = plain_upto(parts, (n - 1) as nat);
        let last = match parts[n - 1] {
            StyledView::Text(text) => text,
            StyledView::Paint(_, inner) => plain_upto(inner, inner.len()),
        };
        let all = plain_upto(parts, n);
        assert(all == first + last);
        assert forall|i: int| 0 <= i < first.len() implies prints(#[trigger] first[i]) || first[i]
            == '\n' by {
            assert(all[i] == first[i]);
        }
        assert forall|i: int| 0 <= i < last.len() implies prints(#[trigger] last[i]) || last[i]
            == '\n' by {
            assert(all[first.len() + i] == last[i]);
        }
        match parts[n - 1] {
            StyledView::Text(text) => {
                let head = out.take(out.len() - text.len());
                assert(out =~= head + text);
                lemma_stripped_shown(head, parts, (n - 1) as nat);
                lemma_stripped_printable(text);
                lemma_stripped_concat(head, text);
            },
            StyledView::Paint(shade, inner) => {
                let (head, tail, text) = choose|head: Seq<char>, tail: Seq<char>, text: Seq<char>|
                    #![trigger is_concat(out, head, tail), in_color(tail, text, shade)]
                    {
                        &&& is_concat(out, head, tail)
                        &&& in_color(tail, text, shade)
                        &&& shows_upto(head, parts, (n - 1) as nat)
                        &&& shows_upto(text, inner, inner.len())
                    };
                lemma_stripped_shown(head, parts, (n - 1) as nat);
                lemma_stripped_shown(text, inner, inner.len());
                lemma_stripped_painted(text, shade);
                lemma_stripped_concat(head, tail);
            },
        }
    }
}

/// Whatever colors a text was shown in, without control sequences it is plain
/// again.
pub proof fn law_strip_undoes_colors(out: Seq<char>, parts: Seq<StyledView>)
    requires
        shows(out, parts),
        printable(plain(parts)),
    ensures
        stripped(out) == Some(plain(parts)),
{
    lemma_stripped_shown(out, parts, parts.len());
}

/// A text in a color.
pub open spec fn colored_text(text: Seq<char>, shade: Shade) -> StyledView {
    StyledView::Paint(shade, seq![StyledView::Text(text)])
}

proof fn lemma_doc_push(parts: Seq<Styled>, part: Styled)
    ensures
        doc(parts.push(part)) == doc(parts).push(part@),
{
    assert(doc(parts.push(part)) =~= doc(parts).push(part@));
}

/// Appends a text.
pub fn push_text(parts: &mut Vec<Styled>, text: String)
    ensures
        doc(final(parts)@) == doc(old(parts)@).push(StyledView::Text(text@)),
{
    proof {
        lemma_doc_push(parts@, Styled::Text(text));
    }
    parts.push(Styled::Text(text));
}

/// Appends a text in a color.
pub fn push_colored(parts: &mut Vec<Styled>, text: String, shade: Shade)
    ensures
        doc(final(parts)@) == doc(old(parts)@).push(colored_text(text@, shade)),
{
    let ghost words = text@;
    let mut inner: Vec<Styled> = Vec::new();
    inner.push(Styled::Text(text));
    assert(inner@[0]@ == StyledView::Text(words));
    let part = Styled::Paint(shade, inner);
    proof {
        assert(part@->Paint_1 =~= seq![StyledView::Text(words)]);
        lemma_doc_push(parts@, part);
    }
    parts.push(part);
}

/// Appends a text that stands in the program.
pub fn push_str(parts: &mut Vec<Styled>, text: &str)
    ensures
        doc(final(parts)@) == doc(old(parts)@).push(StyledView::Text(text@)),
{
    push_text(parts, text.to_owned());
}

/// Appends a text that stands in the program, in a color.
pub fn push_colored_str(parts: &mut Vec<Styled>, text: &str, shade: Shade)
    ensures
        doc(final(parts)@) == doc(old(parts)@).push(colored_text(text@, shade)),
{
    push_colored(parts, text.to_owned(), shade);
}

/// Appends pieces in a color.
pub fn push_painted(parts: &mut Vec<Styled>, inner: Vec<Styled>, shade: Shade)
    ensures
        doc(final(parts)@) == doc(old(parts)@).push(StyledView::Paint(shade, doc(inner@))),
{
    let ghost words = doc(inner@);
    let part = Styled::Paint(shade, inner);
    proof {
        assert(part@->Paint_1 =~= words);
        lemma_doc_push(parts@, part);
    }
    parts.push(part);
}

} // verus!
