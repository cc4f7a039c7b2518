//! What an event of the skin view tells.

use crate::layout::{Button, InputState, Inputs};
use crate::scalar::Scalar;
use crate::skin::SkinState;
use vstd::prelude::*;

verus! {

// ---------------------------------------------------------------------------
// Words
// ---------------------------------------------------------------------------

/// White space is what Unicode calls so: tabs and line breaks, spaces of any width, and the
/// separators of lines and paragraphs.
pub proof fn lemma_white(c: char)
    ensures
        crate::text::is_white(c) <==> {
            ||| 0x09 <= c as int <= 0x0d
            ||| c as int == 0x20
            ||| c as int == 0x85
            ||| c as int == 0xa0
            ||| c as int == 0x1680
            ||| 0x2000 <= c as int <= 0x200a
            ||| 0x2028 <= c as int <= 0x2029
            ||| c as int == 0x202f
            ||| c as int == 0x205f
            ||| c as int == 0x3000
        },
{
}

/// Whether no character of `s` is white space.
pub open spec fn solid(s: Seq<char>) -> bool {
    forall|i: int| 0 <= i < s.len() ==> !crate::text::is_white(#[trigger] s[i])
}

proof fn lemma_solid_len(w: Seq<char>, rest: Seq<char>)
    requires
        solid(w),
        rest.len() == 0 || crate::text::is_white(rest[0]),
    ensures
        crate::text::word_len(w + rest) == w.len(),
    decreases w.len(),
{
    if w.len() == 0 {
        assert(w + rest == rest);
    } else {
        let next = w.skip(1);
        assert(solid(next)) by {
            assert forall|i: int| 0 <= i < next.len() implies !crate::text::is_white(
                #[trigger] next[i],
            ) by {
                assert(next[i] == w[i + 1]);
            }
        }
        lemma_solid_len(next, rest);
        assert((w + rest).skip(1) == next + rest);
        assert((w + rest)[0] == w[0]);
    }
}

/// White space before the words of a text changes nothing.
pub proof fn lemma_words_after_white(c: char, rest: Seq<char>)
    requires
        crate::text::is_white(c),
    ensures
        crate::text::words(seq![c] + rest) == crate::text::words(rest),
{
    let s = seq![c] + rest;
    assert(s.skip(1) == rest);
    assert(s[0] == c);
}

/// Characters that are no white space, up to white space or the end, are one word; the words of what
/// follows come after it.
pub proof fn lemma_words_split(w: Seq<char>, rest: Seq<char>)
    requires
        w.len() > 0,
        solid(w),
        rest.len() == 0 || crate::text::is_white(rest[0]),
    ensures
        crate::text::words(w + rest) == seq![w] + crate::text::words(rest),
{
    let s = w + rest;
    lemma_solid_len(w, rest);
    assert(s[0] == w[0]);
    assert(s.take(w.len() as int) == w);
    assert(s.skip(w.len() as int) == rest);
}

/// A text without characters has no words.
pub proof fn lemma_no_words()
    ensures
        crate::text::words(seq![]) == Seq::<Seq<char>>::empty(),
{
}

// ---------------------------------------------------------------------------
// Lit elements
// ---------------------------------------------------------------------------

/// The name of the element that bit `k` of an event lights.
pub open spec fn element(k: int) -> Seq<char> {
    if k == 0 {
        "a"@
    } else if k == 1 {
        "b"@
    } else if k == 2 {
        "x"@
    } else if k == 3 {
        "y"@
    } else if k == 4 {
        "lb"@
    } else if k == 5 {
        "rb"@
    } else if k == 6 {
        "lt"@
    } else if k == 7 {
        "rt"@
    } else if k == 8 {
        "l3"@
    } else if k == 9 {
        "r3"@
    } else {
        "start"@
    }
}

/// Whether `name` is among the words of the skin text of a button.
pub open spec fn called(b: Button, name: Seq<char>) -> bool {
    b.skin matches Some(skin) && crate::text::words(skin@).contains(name)
}

proof fn lemma_element_bits(role: Seq<char>, k: u8)
    ensures
        crate::skin::role_bit(role) == Some(k) <==> k <= 10 && role == element(k as int),
{
    reveal_strlit("a");
    reveal_strlit("b");
    reveal_strlit("x");
    reveal_strlit("y");
    reveal_strlit("lb");
    reveal_strlit("rb");
    reveal_strlit("lt");
    reveal_strlit("rt");
    reveal_strlit("l3");
    reveal_strlit("r3");
    reveal_strlit("start");
    assert("a"@[0] == 'a' && "b"@[0] == 'b' && "x"@[0] == 'x' && "y"@[0] == 'y');
    assert("a"@.len() == 1 && "b"@.len() == 1 && "x"@.len() == 1 && "y"@.len() == 1);
    assert("lb"@[0] == 'l' && "lb"@[1] == 'b' && "rb"@[0] == 'r' && "rb"@[1] == 'b');
    assert("lt"@[0] == 'l' && "lt"@[1] == 't' && "rt"@[0] == 'r' && "rt"@[1] == 't');
    assert("l3"@[0] == 'l' && "l3"@[1] == '3' && "r3"@[0] == 'r' && "r3"@[1] == '3');
    assert("lb"@.len() == 2 && "rb"@.len() == 2 && "lt"@.len() == 2 && "rt"@.len() == 2);
    assert("l3"@.len() == 2 && "r3"@.len() == 2 && "start"@.len() == 5);
}

/// An element is lit exactly while a button that is called by its name is pressed.
pub proof fn lemma_elements_lit(inputs: Inputs, state: InputState, k: u8)
    requires
        k < 16,
    ensures
        (SkinState::shown(inputs, state).mask >> k) & 1 == 1 <==> k <= 10 && exists|i: int|
            0 <= i < inputs.buttons@.len() && i < state.buttons@.len() && state.buttons@[i]
                && called(#[trigger] inputs.buttons@[i], element(k as int)),
{
    crate::skin::lemma_lit_iff_pressed(inputs, state, k);
    let name = element(k as int);
    assert forall|i: int| crate::skin::stands_for(#[trigger] inputs.buttons@[i], k) == (k <= 10
        && called(inputs.buttons@[i], name)) by {
        if let Some(skin) = inputs.buttons@[i].skin {
            let words = crate::text::words(skin@);
            if crate::skin::names(words, k, words.len()) {
                let w = choose|w: int|
                    0 <= w < words.len() && crate::skin::role_bit(#[trigger] words[w]) == Some(k);
                lemma_element_bits(words[w], k);
                assert(words.contains(name));
            }
            if k <= 10 && words.contains(name) {
                let w = choose|w: int| 0 <= w < words.len() && words[w] == name;
                lemma_element_bits(words[w], k);
                assert(crate::skin::names(words, k, words.len()));
            }
        }
    }
    if (SkinState::shown(inputs, state).mask >> k) & 1 == 1 {
        let i = choose|i: int|
            0 <= i < inputs.buttons@.len() && i < state.buttons@.len() && state.buttons@[i]
                && crate::skin::stands_for(#[trigger] inputs.buttons@[i], k);
        assert(called(inputs.buttons@[i], name));
    }
}

// ---------------------------------------------------------------------------
// The text
// ---------------------------------------------------------------------------

/// A deflection in units of 2^-149, but not beyond full deflection.
pub open spec fn limited(v: int) -> int {
    let u = crate::scalar::unit() as int;
    if v < -u {
        -u
    } else if v > u {
        u
    } else {
        v
    }
}

/// Whether `s` spells, in thousandths, how far a stick is deflected.
pub open spec fn spells_deflection(s: Seq<char>, v: Scalar) -> bool {
    crate::spelled::reads(s, 3) matches Some(k) && 2 * crate::precision::size(
        k * crate::scalar::unit() - 1000 * limited(v.value()),
    ) <= crate::scalar::unit()
}

proof fn lemma_spells_deflection(v: Scalar)
    requires
        !v.is_nan(),
    ensures
        spells_deflection(v.clamped().fixed(3), v),
{
    crate::scalar::lemma_one();
    let u = crate::scalar::unit() as int;
    let minus = Scalar { bits: (crate::scalar::ONE + crate::scalar::SIGN) as u32 };
    assert(minus.low() == crate::scalar::ONE && minus.is_signed());
    let c = v.clamped();
    if v.low() >= crate::scalar::INFINITY {
        crate::scalar::lemma_magnitude_order(crate::scalar::ONE as nat, v.low());
    }
    assert(c.is_finite());
    assert(c.value() == limited(v.value()));
    crate::spelled::lemma_fixed_reads(c, 3);
    assert(crate::scalar::pow10(3) == 1000) by {
        reveal_with_fuel(crate::scalar::pow10, 4);
    }
    assert(c.value() * 1000 == 1000 * c.value());
}

/// An event holds three fields, and the middle one four: the lit elements, where the left stick is
/// to the right and down, where the right stick is to the right and down, and the pressed buttons.
pub proof fn lemma_event_told(s: SkinState)
    requires
        !s.left.0.is_nan(),
        !s.left.1.is_nan(),
        !s.right.0.is_nan(),
        !s.right.1.is_nan(),
    ensures
        ({
            let fields = crate::text::pieces(s.text(), ';');
            let sticks = crate::text::pieces(fields[1], ',');
            &&& fields.len() == 3
            &&& crate::text::digits_value(fields[0]) == Some(s.mask as nat)
            &&& crate::text::digits_value(fields[2]) == Some(s.raw as nat)
            &&& sticks.len() == 4
            &&& spells_deflection(sticks[0], s.left.0)
            &&& spells_deflection(sticks[1], s.left.1)
            &&& spells_deflection(sticks[2], s.right.0)
            &&& spells_deflection(sticks[3], s.right.1)
        }),
{
    crate::skin::lemma_event_fields(s);
    crate::text::lemma_decimal(s.mask as nat);
    crate::text::lemma_decimal(s.raw as nat);
    lemma_spells_deflection(s.left.0);
    lemma_spells_deflection(s.left.1);
    lemma_spells_deflection(s.right.0);
    lemma_spells_deflection(s.right.1);
}

} // verus!
