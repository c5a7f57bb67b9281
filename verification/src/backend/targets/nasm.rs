//! Strings as the assembler reads them.

use crate::text::{join, joined, lemma_texts_push, texts};
use vstd::prelude::*;

verus! {

/// A part of a string: a text between quotes, or a character by its number.
pub enum NasmPart {
    Text(Seq<char>),
    Number(char),
}

/// The characters that do not stand between quotes.
pub open spec fn is_numbered(c: char) -> bool {
    c == '\n' || c == '\r' || c == '\0'
}

/// The parts of a string from the character with number `i` on, where the
/// current text starts at `start`.
pub open spec fn nasm_parts(text: Seq<char>, start: nat, i: nat) -> Seq<NasmPart>
    decreases text.len() - i,
{
    if i >= text.len() {
        if start < text.len() {
            seq![NasmPart::Text(text.subrange(start as int, text.len() as int))]
        } else {
            Seq::empty()
        }
    } else if is_numbered(text[i as int]) {
        (if start < i {
            seq![NasmPart::Text(text.subrange(start as int, i as int))]
        } else {
            Seq::empty()
        }) + seq![NasmPart::Number(text[i as int])] + nasm_parts(text, i + 1, i + 1)
    } else {
        nasm_parts(text, start, i + 1)
    }
}

/// How a part is written.
pub open spec fn part_text(part: NasmPart) -> Seq<char> {
    match part {
        NasmPart::Text(text) => "\""@ + text + "\""@,
        NasmPart::Number(c) => if c == '\n' {
            "0xA"@
        } else if c == '\r' {
            "0xD"@
        } else {
            "0x0"@
        },
    }
}

/// How parts are written.
pub open spec fn part_texts(parts: Seq<NasmPart>) -> Seq<Seq<char>> {
    Seq::new(parts.len(), |i: int| part_text(parts[i]))
}

/// A string as the assembler reads it.
pub open spec fn nasm_text(text: Seq<char>) -> Seq<char> {
    joined(part_texts(nasm_parts(text, 0, 0)), ", "@)
}

/// What parts stand for together.
pub open spec fn restored(parts: Seq<NasmPart>) -> Seq<char>
    decreases parts.len(),
{
    if parts.len() == 0 {
        Seq::empty()
    } else {
        (match parts[0] {
            NasmPart::Text(text) => text,
            NasmPart::Number(c) => seq![c],
        }) + restored(parts.drop_first())
    }
}

proof fn lemma_restored(text: Seq<char>, start: nat, i: nat)
    requires
        start <= i <= text.len(),
    ensures
        restored(nasm_parts(text, start, i)) == text.skip(start as int),
    decreases text.len() - i,
{
    let parts = nasm_parts(text, start, i);
    if i >= text.len() {
        if start < text.len() {
            assert(parts.drop_first() =~= Seq::<NasmPart>::empty());
            assert(restored(parts.drop_first()) =~= Seq::<char>::empty());
            assert(restored(parts) =~= text.skip(start as int));
        } else {
            assert(restored(parts) =~= text.skip(start as int));
        }
    } else if is_numbered(text[i as int]) {
        lemma_restored(text, i + 1, i + 1);
        let rest = nasm_parts(text, i + 1, i + 1);
        let tail = seq![NasmPart::Number(text[i as int])] + rest;
        assert(tail.drop_first() =~= rest);
        assert(restored(tail) =~= text.skip(i as int));
        if start < i {
            assert(parts.drop_first() =~= tail);
            assert(restored(parts) =~= text.skip(start as int));
        } else {
            assert(parts =~= tail);
        }
    } else {
        lemma_restored(text, start, i + 1);
    }
}

/// The parts of a string stand for the string.
pub proof fn law_parts_stand_for_string(text: Seq<char>)
    ensures
        restored(nasm_parts(text, 0, 0)) == text,
{
    lemma_restored(text, 0, 0);
    assert(text.skip(0) =~= text);
}

proof fn lemma_part_is_plain(text: Seq<char>, start: nat, i: nat, k: int)
    requires
        start <= i <= text.len(),
        forall|j: int| start <= j < i ==> !is_numbered(#[trigger] text[j]),
        0 <= k < nasm_parts(text, start, i).len(),
    ensures
        match nasm_parts(text, start, i)[k] {
            NasmPart::Text(t) => t.len() > 0 && forall|j: int|
                0 <= j < t.len() ==> !is_numbered(#[trigger] t[j]),
            NasmPart::Number(c) => is_numbered(c),
        },
    decreases text.len() - i,
{
    let parts = nasm_parts(text, start, i);
    if i < text.len() {
        if is_numbered(text[i as int]) {
            let head = (if start < i {
                seq![NasmPart::Text(text.subrange(start as int, i as int))]
            } else {
                Seq::empty()
            }) + seq![NasmPart::Number(text[i as int])];
            if k >= head.len() {
                lemma_part_is_plain(text, i + 1, i + 1, k - head.len());
            }
        } else {
            lemma_part_is_plain(text, start, i + 1, k);
        }
    }
}

/// Nothing that cannot stand between quotes does, and nothing else is given by
/// number.
pub proof fn law_quoted_parts_are_plain(text: Seq<char>, k: int)
    requires
        0 <= k < nasm_parts(text, 0, 0).len(),
    ensures
        match nasm_parts(text, 0, 0)[k] {
            NasmPart::Text(t) => t.len() > 0 && forall|j: int|
                0 <= j < t.len() ==> !is_numbered(#[trigger] t[j]),
            NasmPart::Number(c) => is_numbered(c),
        },
{
    lemma_part_is_plain(text, 0, 0, k);
}

/// A text between quotes.
fn quoted(text: &str) -> (r: String)
    ensures
        r@ == part_text(NasmPart::Text(text@)),
{
    let mut out = "\"".to_owned();
    out.append(text);
    out.append("\"");
    out
}

/// Appends a part.
fn push_part(
    parts: &mut Vec<String>,
    text: String,
    Ghost(done): Ghost<Seq<NasmPart>>,
    Ghost(part): Ghost<NasmPart>,
)
    requires
        texts(old(parts)@) == part_texts(done),
        text@ == part_text(part),
    ensures
        texts(final(parts)@) == part_texts(done.push(part)),
{
    proof {
        lemma_texts_push(parts@, text);
    }
    parts.push(text);
    assert(part_texts(done.push(part)) =~= part_texts(done).push(part_text(part)));
}

/// A string as the assembler reads it: texts between quotes, and line breaks
/// and zeros by their numbers.
pub fn format_nasm_string(string: &str) -> (r: String)
    ensures
        r@ == nasm_text(string@),
{
    let ghost text = string@;
    let ghost all = nasm_parts(text, 0, 0);
    let ghost mut done: Seq<NasmPart> = Seq::empty();
    let mut parts: Vec<String> = Vec::new();
    let length: usize = string.unicode_len();
    let mut last: usize = 0;
    let mut i: usize = 0;
    assert(texts(parts@) =~= part_texts(done));
    assert(all =~= done + nasm_parts(text, 0, 0));
    while i < length
        invariant
            0 <= last <= i <= length,
            text == string@,
            length == text.len(),
            all == done + nasm_parts(text, last as nat, i as nat),
            texts(parts@) == part_texts(done),
        decreases length - i,
    {
        let c = string.get_char(i);
        if c == '\n' || c == '\r' || c == '\0' {
            let ghost rest = nasm_parts(text, i as nat + 1, i as nat + 1);
            if last != i {
                let ghost part = NasmPart::Text(text.subrange(last as int, i as int));
                push_part(
                    &mut parts,
                    quoted(string.substring_char(last, i)),
                    Ghost(done),
                    Ghost(part),
                );
                proof {
                    done = done.push(part);
                }
            }
            assert(all =~= done + (seq![NasmPart::Number(c)] + rest));
            push_part(
                &mut parts,
                if c == '\n' {
                    "0xA".to_owned()
                } else if c == '\r' {
                    "0xD".to_owned()
                } else {
                    "0x0".to_owned()
                },
                Ghost(done),
                Ghost(NasmPart::Number(c)),
            );
            proof {
                done = done.push(NasmPart::Number(c));
                assert(all =~= done + rest);
            }
            last = i + 1;
        }
        i = i + 1;
    }
    if last < length {
        let ghost part = NasmPart::Text(text.subrange(last as int, length as int));
        push_part(
            &mut parts,
            quoted(string.substring_char(last, length)),
            Ghost(done),
            Ghost(part),
        );
        proof {
            done = done.push(part);
        }
    }
    assert(all =~= done);
    join(&parts, ", ")
}

} // verus!
