use vstd::prelude::*;

use crate::matching::external::{string_push, string_push_str, utf8_decode};
use crate::matching::text::{decimal, push_decimal, utf8_text};

verus! {

/// A financial instrument / ticker symbol.
#[derive(Debug, Clone, Copy)]
pub struct Symbol {
    /// Numeric identifier (matches `StockLocate` in ITCH).
    pub id: u32,
    /// Fixed-width 8-byte name (null-padded).
    pub name: [u8; 8],
}

impl Symbol {
    /// Create a new symbol.
    pub fn new(id: u32, name: &[u8; 8]) -> (r: Self)
        ensures
            r.id == id,
            r.name@ == name@,
    {
        Self { id, name: *name }
    }

    /// Return the name as a UTF-8 string (trimmed at the first NUL byte); the empty string
    /// when those bytes are not valid UTF-8.
    pub fn name_str(&self) -> (r: &str)
        ensures
            r@ == decoded_or_empty(utf8_text(self.name@.subrange(0, name_end(self.name@) as int))),
    {
        let end = name_length(&self.name);
        let bytes = vstd::slice::slice_subrange(self.name.as_slice(), 0, end);
        text_or_empty(utf8_decode(bytes))
    }

    /// The text of the name, as `name_str` gives it.
    pub open spec fn name_text(self) -> Seq<char> {
        decoded_or_empty(utf8_text(self.name@.subrange(0, name_end(self.name@) as int)))
    }

    /// The display text: `<name>(<id>)`.
    pub open spec fn text(self) -> Seq<char> {
        self.name_text() + "("@ + decimal(self.id as nat) + ")"@
    }

    /// The display text of the symbol.
    pub fn to_text(&self) -> (r: String)
        ensures
            r@ == self.text(),
    {
        let mut r = String::new();
        string_push_str(&mut r, self.name_str());
        string_push(&mut r, '(');
        push_decimal(&mut r, self.id as u64);
        string_push(&mut r, ')');
        proof {
            reveal_strlit("(");
            reveal_strlit(")");
            assert(r@ =~= self.text());
        }
        r
    }
}

/// The position of the first NUL byte of a name, or its full length without one.
pub open spec fn name_end(name: Seq<u8>) -> nat
    decreases name.len(),
{
    if name.len() == 0 {
        0
    } else if name_end(name.drop_last()) < name.len() - 1 {
        name_end(name.drop_last())
    } else if name.last() == 0 {
        (name.len() - 1) as nat
    } else {
        name.len()
    }
}

/// The text of a name: the decoded text, or nothing when decoding failed.
pub open spec fn decoded_or_empty(decoded: Option<Seq<char>>) -> Seq<char> {
    match decoded {
        Some(t) => t,
        None => Seq::empty(),
    }
}

/// The length of a name up to its first NUL byte.
pub fn name_length(name: &[u8; 8]) -> (r: usize)
    ensures
        r == name_end(name@),
        r <= 8,
{
    let mut i: usize = 0;
    while i < 8
        invariant
            i <= 8,
            name_end(name@.subrange(0, i as int)) == i,
        decreases 8 - i,
    {
        proof {
            assert(name@.subrange(0, i + 1).drop_last() =~= name@.subrange(0, i as int));
        }
        if name[i] == 0 {
            proof {
                lemma_name_end_stops(name@, i as int);
            }
            return i;
        }
        i = i + 1;
    }
    proof {
        assert(name@.subrange(0, 8) =~= name@);
    }
    8
}

/// Once a NUL byte is found, longer names end there too.
proof fn lemma_name_end_stops(name: Seq<u8>, i: int)
    requires
        0 <= i < name.len(),
        name[i] == 0,
        name_end(name.subrange(0, i)) == i,
    ensures
        name_end(name) == i,
    decreases name.len() - i,
{
    let k = name.len();
    if k == i + 1 {
        assert(name.subrange(0, i) =~= name.drop_last());
    } else {
        let d = name.drop_last();
        assert(d.subrange(0, i) =~= name.subrange(0, i));
        lemma_name_end_stops(d, i);
    }
}

/// The decoded text of a name, or the empty string when decoding failed.
pub fn text_or_empty(decoded: Option<&str>) -> (r: &str)
    ensures
        r@ == decoded_or_empty(match decoded {
            Some(s) => Some(s@),
            None => None,
        }),
{
    match decoded {
        Some(s) => s,
        None => {
            let e = "";
            proof {
                reveal_strlit("");
            }
            e
        },
    }
}

} // verus!
