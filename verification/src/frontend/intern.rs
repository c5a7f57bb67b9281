//! Interned strings.

use crate::text::same_text;
use vstd::prelude::*;

verus! {

/// A string that is known by its number in an [`Interner`].
#[derive(Clone, Copy, Debug, PartialEq, Eq, Structural, PartialOrd, Ord, Hash)]
pub struct InternedSymbol(pub u32);

/// The strings seen so far, each one once.
pub struct Interner {
    strings: Vec<String>,
}

impl View for Interner {
    type V = Seq<Seq<char>>;

    closed spec fn view(&self) -> Seq<Seq<char>> {
        self.strings@.map_values(|s: String| s@)
    }
}

/// The number under which `text` is known.
pub open spec fn symbol_of(strings: Seq<Seq<char>>, text: Seq<char>) -> int {
    if strings.contains(text) {
        strings.index_of(text)
    } else {
        strings.len() as int
    }
}

/// The strings known once `text` has been interned.
pub open spec fn interned(strings: Seq<Seq<char>>, text: Seq<char>) -> Seq<Seq<char>> {
    if strings.contains(text) {
        strings
    } else {
        strings.push(text)
    }
}

impl Interner {
    /// No string is held twice, and every one has a 32-bit number.
    pub open spec fn well_formed(&self) -> bool {
        &&& self@.no_duplicates()
        &&& self@.len() <= 0x1_0000_0000
    }

    /// The text behind a symbol.
    pub open spec fn text(&self, symbol: InternedSymbol) -> Seq<char> {
        self@[symbol.0 as int]
    }

    /// Whether a symbol has been handed out.
    pub open spec fn knows(&self, symbol: InternedSymbol) -> bool {
        (symbol.0 as int) < self@.len()
    }

    /// An interner that knows no string.
    pub fn new() -> (r: Interner)
        ensures
            r@ == Seq::<Seq<char>>::empty(),
            r.well_formed(),
    {
        let r = Interner { strings: Vec::new() };
        assert(r@ =~= Seq::<Seq<char>>::empty());
        r
    }

    /// The symbol for `text`, which is a new one the first time.
    pub fn intern(&mut self, text: &str) -> (r: InternedSymbol)
        requires
            old(self).well_formed(),
            old(self)@.contains(text@) || old(self)@.len() < 0x1_0000_0000,
        ensures
            r.0 as int == symbol_of(old(self)@, text@),
            final(self)@ == interned(old(self)@, text@),
            final(self).well_formed(),
            final(self).knows(r),
            final(self).text(r) == text@,
    {
        let mut i: usize = 0;
        while i < self.strings.len()
            invariant
                self.well_formed(),
                *self == *old(self),
                0 <= i <= self.strings@.len(),
                forall|k: int| 0 <= k < i ==> #[trigger] self@[k] != text@,
            decreases self.strings@.len() - i,
        {
            assert(self@[i as int] == self.strings@[i as int]@);
            if same_text(self.strings[i].as_str(), text) {
                assert(self@.contains(text@));
                return InternedSymbol(i as u32);
            }
            i = i + 1;
        }
        assert(!self@.contains(text@));
        let n: u32 = self.strings.len() as u32;
        self.strings.push(text.to_owned());
        assert(self@ =~= old(self)@.push(text@));
        InternedSymbol(n)
    }

    /// The text behind a symbol.
    pub fn value(&self, symbol: InternedSymbol) -> (r: &str)
        requires
            self.knows(symbol),
        ensures
            r@ == self.text(symbol),
    {
        self.strings[symbol.0 as usize].as_str()
    }
}

/// Interning a string again changes nothing and gives the same number.
pub proof fn law_intern_idempotent(strings: Seq<Seq<char>>, text: Seq<char>)
    ensures
        interned(interned(strings, text), text) == interned(strings, text),
        symbol_of(interned(strings, text), text) == symbol_of(strings, text) || !strings.no_duplicates(),
{
    let after = interned(strings, text);
    if !strings.contains(text) {
        assert(after[strings.len() as int] == text);
        let i = after.index_of(text);
        assert(i == strings.len()) by {
            if i < strings.len() {
                assert(strings[i] == text);
            }
        }
    }
}

/// Two strings have the same symbol only if they are the same string.
pub proof fn law_symbols_injective(strings: Seq<Seq<char>>, a: Seq<char>, b: Seq<char>)
    ensures
        ({
            let after = interned(interned(strings, a), b);
            symbol_of(after, a) == symbol_of(after, b) ==> a == b
        }),
{
    let first = interned(strings, a);
    let after = interned(first, b);
    assert(first.contains(a)) by {
        if !strings.contains(a) {
            assert(first[strings.len() as int] == a);
        }
    }
    assert(after.contains(a)) by {
        let i = first.index_of(a);
        assert(after[i] == a);
    }
    assert(after.contains(b)) by {
        if !first.contains(b) {
            assert(after[first.len() as int] == b);
        }
    }
}

/// A symbol keeps its text whatever is interned later.
pub proof fn law_symbols_stable(strings: Seq<Seq<char>>, text: Seq<char>, symbol: int)
    requires
        0 <= symbol < strings.len(),
    ensures
        interned(strings, text).len() >= strings.len(),
        interned(strings, text)[symbol] == strings[symbol],
{
}

} // verus!
