//! The label page: the overlay with each labelled button's name on it.

use crate::gamepad::{Backend, Gamepad};
use crate::label::{FULL, HALF, TWO};
use crate::layout::{Button, Color, ColorPair};
use crate::pages::{EVENTS_JS, LABELS_CSS, LABELS_HEAD, PANEL_CSS, PANEL_HTML, PANEL_JS};
use crate::scalar::{Scalar, ONE};
use crate::text::{chars_of, push_decimal};
use vstd::prelude::*;

verus! {

/// The bit pattern of 4: the number of characters that fit at full size.
pub const FOUR: u32 = 0x4080_0000;

/// The bit pattern of 0.6: the least size of a long label, as a share of the full size.
pub const LEAST_SIZE: u32 = 0x3f19_999a;

// ---------------------------------------------------------------------------
// Colors
// ---------------------------------------------------------------------------

/// A color channel as a whole number from 0 to 255.
pub open spec fn channel(v: Scalar) -> nat {
    v.product(Scalar { bits: FULL }).sum(Scalar { bits: HALF }).byte()
}

/// A color as style sheets write it.
pub open spec fn css(c: Color) -> Seq<char> {
    "rgba("@ + crate::text::decimal(channel(c.red)) + seq![','] + crate::text::decimal(
        channel(c.green),
    ) + seq![','] + crate::text::decimal(channel(c.blue)) + seq![','] + crate::text::decimal(
        channel(c.alpha),
    ) + seq![')']
}

fn push_channel(out: &mut String, v: Scalar)
    ensures
        final(out)@ == old(out)@ + crate::text::decimal(channel(v)),
{
    let byte: u8 = v.times(Scalar { bits: FULL }).plus(Scalar { bits: HALF }).to_byte();
    push_decimal(out, byte as u128);
}

/// A color as style sheets write it.
pub fn css_color(c: Color) -> (r: String)
    ensures
        r@ == css(c),
{
    let mut out = String::new();
    out.append("rgba(");
    push_channel(&mut out, c.red);
    out.push(',');
    push_channel(&mut out, c.green);
    out.push(',');
    push_channel(&mut out, c.blue);
    out.push(',');
    push_channel(&mut out, c.alpha);
    out.push(')');
    out
}

// ---------------------------------------------------------------------------
// Markup
// ---------------------------------------------------------------------------

/// A character as markup shows it.
pub open spec fn entity(c: char) -> Seq<char> {
    if c == '&' {
        "&amp;"@
    } else if c == '<' {
        "&lt;"@
    } else if c == '>' {
        "&gt;"@
    } else {
        seq![c]
    }
}

/// A text as markup shows it.
pub open spec fn escaped(s: Seq<char>) -> Seq<char>
    decreases s.len(),
{
    if s.len() == 0 {
        seq![]
    } else {
        escaped(s.drop_last()) + entity(s.last())
    }
}

/// `s`, so that markup shows it as it is.
pub fn html_escape(s: &str) -> (r: String)
    ensures
        r@ == escaped(s@),
{
    let chars = chars_of(s);
    let mut out = String::new();
    let mut i: usize = 0;
    while i < chars.len()
        invariant
            i <= chars@.len(),
            chars@ == s@,
            out@ == escaped(chars@.take(i as int)),
        decreases chars@.len() - i,
    {
        let c = chars[i];
        if c == '&' {
            out.append("&amp;");
        } else if c == '<' {
            out.append("&lt;");
        } else if c == '>' {
            out.append("&gt;");
        } else {
            out.push(c);
        }
        assert(chars@.take(i + 1).drop_last() == chars@.take(i as int));
        i += 1;
    }
    assert(chars@.take(i as int) == chars@);
    out
}

/// An arrow, set apart so that it can be drawn thicker; any other character as it is.
pub open spec fn marked_arrow(c: char) -> Seq<char> {
    if crate::label::arrow(c) {
        "<span class=\"ar\">"@ + seq![c] + "</span>"@
    } else {
        seq![c]
    }
}

/// A text with its arrows set apart.
pub open spec fn marked(s: Seq<char>) -> Seq<char>
    decreases s.len(),
{
    if s.len() == 0 {
        seq![]
    } else {
        marked(s.drop_last()) + marked_arrow(s.last())
    }
}

/// `s` with its arrows set apart.
pub fn mark_arrows(s: &str) -> (r: String)
    ensures
        r@ == marked(s@),
{
    let chars = chars_of(s);
    let mut out = String::new();
    let mut i: usize = 0;
    while i < chars.len()
        invariant
            i <= chars@.len(),
            chars@ == s@,
            out@ == marked(chars@.take(i as int)),
        decreases chars@.len() - i,
    {
        let c = chars[i];
        if crate::label::is_arrow(c) {
            out.append("<span class=\"ar\">");
            out.push(c);
            out.append("</span>");
        } else {
            out.push(c);
        }
        assert(chars@.take(i + 1).drop_last() == chars@.take(i as int));
        i += 1;
    }
    assert(chars@.take(i as int) == chars@);
    out
}

// ---------------------------------------------------------------------------
// Labels
// ---------------------------------------------------------------------------

/// How far the font of a label with `n` characters shrinks so that the text stays inside the
/// button: 4/n, between 0.6 and 1. From 7 characters on that is 0.6.
pub open spec fn shrink(n: nat) -> Scalar {
    if n <= 4 {
        Scalar { bits: ONE }
    } else if n <= 6 {
        (Scalar { bits: FOUR }).quotient(Scalar::of(false, n))
    } else {
        Scalar { bits: LEAST_SIZE }
    }
}

/// The font size of a button's label, in pixels.
pub open spec fn font_size(b: Button, count: nat, scale: Scalar) -> Scalar {
    b.shape.bottom.difference(b.shape.top).product(scale).product(Scalar { bits: HALF }).product(
        shrink(count),
    )
}

/// The attribute that holds the color of a pressed button's label, where that differs.
pub open spec fn active_attribute(colors: Option<ColorPair>) -> Seq<char> {
    match colors {
        Some(pair) => if css(pair.active) != css(pair.inactive) {
            " data-lca=\""@ + css(pair.active) + "\""@
        } else {
            seq![]
        },
        None => seq![],
    }
}

/// The style of a released button's label color.
pub open spec fn color_style(colors: Option<ColorPair>) -> Seq<char> {
    match colors {
        Some(pair) => ";color:"@ + css(pair.inactive),
        None => seq![],
    }
}

/// A button's label on the page; nothing for a button without a label.
pub open spec fn label_html(b: Button, scale: Scalar) -> Seq<char> {
    match b.label {
        Some(text) => "<div class=\"l\" data-id=\""@ + crate::text::decimal(b.id as nat) + "\""@
            + active_attribute(b.label_color) + " style=\"left:"@ + crate::render::middle(
            b.shape.left,
            b.shape.right,
            scale,
        ).fixed(1) + "px;top:"@ + crate::render::middle(
            b.shape.top,
            b.shape.bottom,
            scale,
        ).fixed(1) + "px;font-size:"@ + font_size(b, text@.len(), scale).fixed(1) + "px"@
            + color_style(b.label_color) + "\">"@ + marked(escaped(text@)) + "</div>"@,
        None => seq![],
    }
}

/// The labels of the first `n` buttons.
pub open spec fn labels_html(buttons: Seq<Button>, scale: Scalar, n: nat) -> Seq<char>
    decreases n,
{
    if n == 0 {
        seq![]
    } else {
        labels_html(buttons, scale, (n - 1) as nat) + label_html(buttons[n - 1], scale)
    }
}

/// How far the font of a label with `n` characters shrinks.
fn shrunk(n: usize) -> (r: Scalar)
    ensures
        r == shrink(n as nat),
{
    if n <= 4 {
        Scalar { bits: ONE }
    } else if n <= 6 {
        Scalar { bits: FOUR }.over(Scalar::whole(n as u32))
    } else {
        Scalar { bits: LEAST_SIZE }
    }
}

fn push_active_attribute(out: &mut String, colors: &Option<ColorPair>)
    ensures
        final(out)@ == old(out)@ + active_attribute(*colors),
{
    if let Some(pair) = colors {
        let active = css_color(pair.active);
        let inactive = css_color(pair.inactive);
        if *active.as_str() != *inactive.as_str() {
            out.append(" data-lca=\"");
            out.append(active.as_str());
            out.append("\"");
        }
    }
}

fn push_color_style(out: &mut String, colors: &Option<ColorPair>)
    ensures
        final(out)@ == old(out)@ + color_style(*colors),
{
    if let Some(pair) = colors {
        out.append(";color:");
        out.append(css_color(pair.inactive).as_str());
    }
}

fn push_label(out: &mut String, b: &Button, scale: Scalar)
    ensures
        final(out)@ == old(out)@ + label_html(*b, scale),
{
    if let Some(text) = &b.label {
        let two = Scalar { bits: TWO };
        let cx = b.shape.left.plus(b.shape.right).over(two).times(scale);
        let cy = b.shape.top.plus(b.shape.bottom).over(two).times(scale);
        let diameter = b.shape.height().times(scale);
        let count = chars_of(text.as_str()).len();
        let size = diameter.times(Scalar { bits: HALF }).times(shrunk(count));
        out.append("<div class=\"l\" data-id=\"");
        push_decimal(out, b.id as u128);
        out.append("\"");
        push_active_attribute(out, &b.label_color);
        out.append(" style=\"left:");
        out.append(cx.to_fixed(1).as_str());
        out.append("px;top:");
        out.append(cy.to_fixed(1).as_str());
        out.append("px;font-size:");
        out.append(size.to_fixed(1).as_str());
        out.append("px");
        push_color_style(out, &b.label_color);
        out.append("\">");
        out.append(mark_arrows(html_escape(text.as_str()).as_str()).as_str());
        out.append("</div>");
    }
}

// ---------------------------------------------------------------------------
// The page
// ---------------------------------------------------------------------------

/// The style of the wrapper around an image of the given size.
pub open spec fn wrapper_css(w: nat, h: nat) -> Seq<char> {
    "#w{position:absolute;top:0;left:0;width:"@ + crate::text::decimal(w) + "px;height:"@
        + crate::text::decimal(h) + "px;transform-origin:top left}"@
}

/// The script that fits an image of the given size into the window.
pub open spec fn fit_js(w: nat, h: nat) -> Seq<char> {
    "var w=document.getElementById('w');function fit(){var s=Math.min(innerWidth/"@
        + crate::text::decimal(w) + ",innerHeight/"@ + crate::text::decimal(h)
        + ")*0.8;w.style.transform='translate('+((innerWidth-"@ + crate::text::decimal(w)
        + "*s)/2)+'px,'+((innerHeight-"@ + crate::text::decimal(h)
        + "*s)/2)+'px) scale('+s+')';}\n        addEventListener('resize',fit);fit();"@
}

/// The label page for an image of the given size.
pub open spec fn labels_page(w: nat, h: nat, labels: Seq<char>) -> Seq<char> {
    LABELS_HEAD@ + wrapper_css(w, h) + LABELS_CSS@ + PANEL_CSS@ + "</style></head><body>"@
        + "<div id=\"w\"><img src=\"/stream\" alt=\"overlay\">"@ + labels + "</div>"@ + PANEL_HTML@
        + "<script>"@ + fit_js(w, h) + EVENTS_JS@ + PANEL_JS@ + "</script></body></html>"@
}

fn push_wrapper_css(out: &mut String, w: u32, h: u32)
    ensures
        final(out)@ == old(out)@ + wrapper_css(w as nat, h as nat),
{
    out.append("#w{position:absolute;top:0;left:0;width:");
    push_decimal(out, w as u128);
    out.append("px;height:");
    push_decimal(out, h as u128);
    out.append("px;transform-origin:top left}");
}

fn push_fit_js(out: &mut String, w: u32, h: u32)
    ensures
        final(out)@ == old(out)@ + fit_js(w as nat, h as nat),
{
    out.append("var w=document.getElementById('w');function fit(){var s=Math.min(innerWidth/");
    push_decimal(out, w as u128);
    out.append(",innerHeight/");
    push_decimal(out, h as u128);
    out.append(")*0.8;w.style.transform='translate('+((innerWidth-");
    push_decimal(out, w as u128);
    out.append("*s)/2)+'px,'+((innerHeight-");
    push_decimal(out, h as u128);
    out.append("*s)/2)+'px) scale('+s+')';}\n        addEventListener('resize',fit);fit();");
}

/// The text of the label page for a gamepad; `None` if the layout does not fit into a rectangle.
pub open spec fn page_of<B: Backend>(gamepad: Gamepad<B>) -> Option<Seq<char>> {
    match gamepad.size() {
        Some((w, h)) => Some(
            labels_page(
                w as nat,
                h as nat,
                labels_html(
                    gamepad.inputs.buttons@,
                    gamepad.scale,
                    gamepad.inputs.buttons@.len(),
                ),
            ),
        ),
        None => None,
    }
}

/// The label page: the rendered overlay with each labelled button's name centered on it, inside
/// a wrapper that scales to fit the window. `None` if the layout does not fit into a rectangle.
pub fn build_labels_page<B: Backend>(gamepad: &Gamepad<B>) -> (r: Option<String>)
    ensures
        match page_of(*gamepad) {
            Some(text) => r matches Some(page) && page@ == text,
            None => r is None,
        },
{
    let (w, h) = match gamepad.image_size() {
        Some(size) => size,
        None => {
            return None;
        },
    };
    let mut labels = String::new();
    let mut i: usize = 0;
    while i < gamepad.inputs.buttons.len()
        invariant
            i <= gamepad.inputs.buttons@.len(),
            labels@ == labels_html(gamepad.inputs.buttons@, gamepad.scale, i as nat),
        decreases gamepad.inputs.buttons@.len() - i,
    {
        push_label(&mut labels, &gamepad.inputs.buttons[i], gamepad.scale);
        i += 1;
    }
    let mut out = String::new();
    out.append(LABELS_HEAD);
    push_wrapper_css(&mut out, w, h);
    out.append(LABELS_CSS);
    out.append(PANEL_CSS);
    out.append("</style></head><body>");
    out.append("<div id=\"w\"><img src=\"/stream\" alt=\"overlay\">");
    out.append(labels.as_str());
    out.append("</div>");
    out.append(PANEL_HTML);
    out.append("<script>");
    push_fit_js(&mut out, w, h);
    out.append(EVENTS_JS);
    out.append(PANEL_JS);
    out.append("</script></body></html>");
    Some(out)
}

// ---------------------------------------------------------------------------
// What the page keeps
// ---------------------------------------------------------------------------

/// The text that markup shows for `s`.
pub open spec fn unescaped(s: Seq<char>) -> Seq<char>
    decreases s.len(),
{
    if s.len() == 0 {
        seq![]
    } else if s.len() >= 5 && s.take(5) == "&amp;"@ {
        seq!['&'] + unescaped(s.skip(5))
    } else if s.len() >= 4 && s.take(4) == "&lt;"@ {
        seq!['<'] + unescaped(s.skip(4))
    } else if s.len() >= 4 && s.take(4) == "&gt;"@ {
        seq!['>'] + unescaped(s.skip(4))
    } else {
        seq![s[0]] + unescaped(s.skip(1))
    }
}

/// Escaping goes character by character.
pub proof fn lemma_escaped_concat(a: Seq<char>, b: Seq<char>)
    ensures
        escaped(a + b) == escaped(a) + escaped(b),
    decreases b.len(),
{
    if b.len() == 0 {
        assert(a + b == a);
    } else {
        lemma_escaped_concat(a, b.drop_last());
        assert((a + b).drop_last() == a + b.drop_last());
        assert((escaped(a) + escaped(b.drop_last())) + entity(b.last()) == escaped(a) + (escaped(
            b.drop_last(),
        ) + entity(b.last())));
    }
}

proof fn lemma_entity(c: char)
    ensures
        entity('&') == seq!['&', 'a', 'm', 'p', ';'],
        entity('<') == seq!['&', 'l', 't', ';'],
        entity('>') == seq!['&', 'g', 't', ';'],
        "&amp;"@ == seq!['&', 'a', 'm', 'p', ';'],
        "&lt;"@ == seq!['&', 'l', 't', ';'],
        "&gt;"@ == seq!['&', 'g', 't', ';'],
        forall|i: int| 0 <= i < entity(c).len() ==> entity(c)[i] != '<' && entity(c)[i] != '>',
{
    reveal_strlit("&amp;");
    reveal_strlit("&lt;");
    reveal_strlit("&gt;");
    assert("&amp;"@ =~= seq!['&', 'a', 'm', 'p', ';']);
    assert("&lt;"@ =~= seq!['&', 'l', 't', ';']);
    assert("&gt;"@ =~= seq!['&', 'g', 't', ';']);
}

/// Escaped text holds no markup.
pub proof fn lemma_escaped_plain(s: Seq<char>, i: int)
    requires
        0 <= i < escaped(s).len(),
    ensures
        escaped(s)[i] != '<',
        escaped(s)[i] != '>',
    decreases s.len(),
{
    if s.len() > 0 {
        let n = escaped(s.drop_last()).len();
        lemma_entity(s.last());
        if i < n {
            lemma_escaped_plain(s.drop_last(), i);
        } else {
            assert(escaped(s)[i] == entity(s.last())[i - n]);
        }
    }
}

/// Markup shows an escaped text as it was.
pub proof fn lemma_unescaped(s: Seq<char>)
    ensures
        unescaped(escaped(s)) == s,
    decreases s.len(),
{
    if s.len() > 0 {
        let c = s[0];
        let rest = escaped(s.skip(1));
        let e = escaped(s);
        lemma_unescaped(s.skip(1));
        lemma_escaped_concat(seq![c], s.skip(1));
        assert(seq![c] + s.skip(1) == s);
        assert(seq![c].drop_last() == Seq::<char>::empty());
        assert(escaped(seq![c]) == escaped(Seq::<char>::empty()) + entity(c));
        assert(escaped(seq![c]) == entity(c));
        lemma_entity(c);
        assert(e == entity(c) + rest);
        if c == '&' {
            assert(e.take(5) == "&amp;"@);
            assert(e.skip(5) == rest);
        } else if c == '<' {
            assert(e.take(4) == "&lt;"@);
            assert(e.skip(4) == rest);
            assert(e.len() >= 5 ==> e.take(5)[1] == 'l');
        } else if c == '>' {
            assert(e.take(4) == "&gt;"@);
            assert(e.skip(4) == rest);
            assert(e.len() >= 5 ==> e.take(5)[1] == 'g');
            assert(e.take(4)[1] == 'g' && "&lt;"@[1] == 'l');
        } else {
            assert(e.skip(1) == rest);
            assert(e[0] == c);
            assert(e.len() >= 5 ==> e.take(5)[0] == c);
            assert(e.len() >= 4 ==> e.take(4)[0] == c);
        }
    }
}

/// Every button's label stands on the page.
pub proof fn lemma_label_on_page(buttons: Seq<Button>, scale: Scalar, n: nat, i: int)
    requires
        0 <= i < n,
    ensures
        exists|before: Seq<char>, after: Seq<char>|
            labels_html(buttons, scale, n) == #[trigger] (before + label_html(buttons[i], scale)
                + after),
    decreases n,
{
    let head = labels_html(buttons, scale, (n - 1) as nat);
    if i == n - 1 {
        assert(labels_html(buttons, scale, n) == head + label_html(buttons[i], scale) + Seq::<
            char,
        >::empty());
    } else {
        lemma_label_on_page(buttons, scale, (n - 1) as nat, i);
        let (before, after) = choose|before: Seq<char>, after: Seq<char>|
            head == #[trigger] (before + label_html(buttons[i], scale) + after);
        let last = label_html(buttons[n - 1], scale);
        assert((before + label_html(buttons[i], scale) + after) + last == before + label_html(
            buttons[i],
            scale,
        ) + (after + last));
    }
}

} // verus!
