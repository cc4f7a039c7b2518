//! What requests are answered with, and what the stream, the events and the label page carry.

use crate::gamepad::{Backend, Gamepad};
use crate::web::{Frame, Resource, Route};
use vstd::prelude::*;

verus! {

// ---------------------------------------------------------------------------
// Requests
// ---------------------------------------------------------------------------

proof fn lemma_pieces_joined(a: Seq<char>, b: Seq<char>)
    ensures
        crate::text::pieces(a + seq!['&'] + b, '&') == crate::text::pieces(a, '&')
            + crate::text::pieces(b, '&'),
    decreases a.len(),
{
    crate::text::lemma_find(a, '&');
    let n = crate::text::find(a, '&');
    if n == a.len() {
        crate::text::lemma_pieces(a, '&', b);
    } else {
        let head = a.take(n as int);
        let rest = a.skip(n as int + 1);
        assert(a == head + seq!['&'] + rest);
        crate::text::lemma_pieces(head, '&', rest);
        crate::text::lemma_pieces(head, '&', rest + seq!['&'] + b);
        lemma_pieces_joined(rest, b);
        assert(a + seq!['&'] + b == head + seq!['&'] + (rest + seq!['&'] + b));
        assert(seq![head] + crate::text::pieces(rest, '&') + crate::text::pieces(b, '&') == seq![
            head,
        ] + (crate::text::pieces(rest, '&') + crate::text::pieces(b, '&')));
    }
}

/// A query asks for labels if one of its parameters does, wherever it stands: a parameter by the
/// name of `labels`, with any value or none.
pub proof fn lemma_labels_asked(a: Seq<char>, b: Seq<char>, value: Seq<char>)
    ensures
        crate::web::wants_labels(a + seq!['&'] + b) == (crate::web::wants_labels(a)
            || crate::web::wants_labels(b)),
        crate::web::wants_labels("labels"@),
        !value.contains('&') ==> crate::web::wants_labels("labels="@ + value),
        crate::web::wants_labels(b) && !b.contains('&') ==> b == "labels"@ || exists|v: Seq<char>|
            b == #[trigger] ("labels="@ + v),
{
    reveal_strlit("labels");
    reveal_strlit("labels=");
    let p = crate::text::pieces(a, '&');
    let q = crate::text::pieces(b, '&');
    let all = crate::text::pieces(a + seq!['&'] + b, '&');
    lemma_pieces_joined(a, b);
    if crate::web::wants_labels(a) {
        let i = choose|i: int| 0 <= i < p.len() && crate::web::asks_labels(#[trigger] p[i]);
        assert(all[i] == p[i]);
    }
    if crate::web::wants_labels(b) {
        let i = choose|i: int| 0 <= i < q.len() && crate::web::asks_labels(#[trigger] q[i]);
        assert(all[p.len() + i] == q[i]);
    }
    if crate::web::wants_labels(a + seq!['&'] + b) {
        let i = choose|i: int| 0 <= i < all.len() && crate::web::asks_labels(#[trigger] all[i]);
        if i < p.len() {
            assert(p[i] == all[i]);
        } else {
            assert(q[i - p.len()] == all[i]);
        }
    }
    lemma_alone("labels"@);
    assert(crate::text::pieces("labels"@, '&')[0] == "labels"@);
    if !value.contains('&') {
        let s = "labels="@ + value;
        assert forall|i: int| 0 <= i < s.len() implies s[i] != '&' by {
            if i >= 7 {
                assert(s[i] == value[i - 7]);
                assert(value.contains(value[i - 7]));
            } else {
                assert(s[i] == "labels="@[i]);
            }
        }
        lemma_alone(s);
        assert(s.take(7) == "labels="@);
        assert(crate::text::pieces(s, '&')[0] == s);
    }
    if !b.contains('&') && crate::web::wants_labels(b) {
        assert forall|i: int| 0 <= i < b.len() implies b[i] != '&' by {
            assert(b.contains(b[i]));
        }
        lemma_alone(b);
        let i = choose|i: int| 0 <= i < q.len() && crate::web::asks_labels(#[trigger] q[i]);
        assert(q[i] == b);
        if b != "labels"@ {
            assert(b == "labels="@ + b.skip(7));
        }
    }
}

proof fn lemma_alone(s: Seq<char>)
    requires
        forall|i: int| 0 <= i < s.len() ==> s[i] != '&',
    ensures
        crate::text::pieces(s, '&') == seq![s],
{
    crate::text::lemma_pieces(s, '&', seq![]);
}

proof fn lemma_paths()
    ensures
        "/stream"@.len() == 7 && "/stream"@[1] == 's' && "/stream"@[2] == 't',
        "/events"@.len() == 7 && "/events"@[1] == 'e',
        "/"@.len() == 1,
        "/skin"@.len() == 5 && "/skin"@[1] == 's',
        "/skin/skin.css"@.len() == 14 && "/skin/skin.css"@[1] == 's' && "/skin/skin.css"@[6] == 's',
        "/fonts/teko.ttf"@.len() == 15 && "/fonts/teko.ttf"@[1] == 'f',
        "/skin/images/"@.len() == 13 && "/skin/images/"@[1] == 's' && "/skin/images/"@[2] == 'k'
            && "/skin/images/"@[6] == 'i',
{
    reveal_strlit("/stream");
    reveal_strlit("/events");
    reveal_strlit("/");
    reveal_strlit("/skin");
    reveal_strlit("/skin/skin.css");
    reveal_strlit("/fonts/teko.ttf");
    reveal_strlit("/skin/images/");
}

/// Every path has its answer, whatever query follows; on the start page the query decides between
/// the viewer and the labels. Any other path, but for the images of the skin, is not found.
pub proof fn lemma_paths_answered(path: Seq<char>, query: Seq<char>)
    requires
        !path.contains('?'),
        query.len() == 0 || query[0] == '?',
    ensures
        ({
            let url = path + query;
            let got = crate::web::routed(
                crate::web::path_of(url),
                crate::web::wants_labels(crate::web::query_of(url)),
            );
            let labels = query.len() > 0 && crate::web::wants_labels(query.skip(1));
            &&& got == Route::Stream <==> path == "/stream"@
            &&& got == Route::Events <==> path == "/events"@
            &&& got == Route::Document(Resource::Labels) <==> path == "/"@ && labels
            &&& got == Route::Document(Resource::Index) <==> path == "/"@ && !labels
            &&& got == Route::Document(Resource::Skin) <==> path == "/skin"@
            &&& got == Route::Document(Resource::SkinStyle) <==> path == "/skin/skin.css"@
            &&& got == Route::Document(Resource::Font) <==> path == "/fonts/teko.ttf"@
            &&& got matches Route::Document(Resource::Image(i)) ==> path == "/skin/images/"@
                + crate::web::image_file(i as int) && i < 11
        }),
{
    let url = path + query;
    assert forall|k: int| 0 <= k < path.len() implies url[k] != '?' by {
        assert(url[k] == path[k]);
        assert(path.contains(path[k]));
    }
    crate::text::lemma_find_at(url, '?', path.len());
    assert(crate::web::path_of(url) == path);
    if query.len() > 0 {
        assert(crate::web::query_of(url) == query.skip(1));
    } else {
        assert(crate::web::query_of(url) == Seq::<char>::empty());
        lemma_alone(seq![]);
        reveal_strlit("labels");
        reveal_strlit("labels=");
        assert("labels"@.len() == 6 && "labels="@.len() == 7);
        assert(!crate::web::wants_labels(seq![]));
    }
    lemma_paths();
    if crate::text::has_prefix(path, "/skin/images/"@) {
        let name = path.skip(13);
        assert(path == "/skin/images/"@ + name);
        lemma_image_found(name, 0);
        assert(path[1] == "/skin/images/"@[1] && path[2] == "/skin/images/"@[2] && path[6]
            == "/skin/images/"@[6]);
    }
}

proof fn lemma_image_found(name: Seq<char>, i: nat)
    requires
        i <= 11,
    ensures
        crate::web::image_from(name, i) matches Some(k) ==> i <= k < 11 && name
            == crate::web::image_file(k as int),
    decreases 11 - i,
{
    if i < 11 && crate::web::image_file(i as int) != name {
        lemma_image_found(name, i + 1);
    }
}

// ---------------------------------------------------------------------------
// Frames and events
// ---------------------------------------------------------------------------

/// A frame that is published has another number than the one before, and is the image and the event
/// that were published; where the image could not be encoded, nothing of the frame changes.
pub proof fn lemma_frame_published(
    before: Frame,
    after: Frame,
    png: Option<Seq<u8>>,
    event: Seq<char>,
)
    requires
        after.follows(before, png, event),
    ensures
        png matches Some(bytes) ==> after.seq == before.seq + 1 && after.png@ == bytes
            && after.event@ == event,
        png is None ==> after.seq == before.seq && after.png@ == before.png@ && after.event@
            == before.event@,
{
}

/// An event is sent as one message: a single line of data, and the empty line that ends it.
pub proof fn lemma_message_lines(event: Seq<char>)
    requires
        !event.contains('\n'),
    ensures
        crate::text::pieces(crate::web::message(event), '\n') == seq![
            "data: "@ + event,
            seq![],
            seq![],
        ],
{
    reveal_strlit("data: ");
    reveal_strlit("\n\n");
    let line = "data: "@ + event;
    let none = Seq::<char>::empty();
    assert forall|i: int| 0 <= i < line.len() implies line[i] != '\n' by {
        if i >= 6 {
            assert(line[i] == event[i - 6]);
            assert(event.contains(event[i - 6]));
        } else {
            assert(line[i] == "data: "@[i]);
        }
    }
    crate::text::lemma_pieces(line, '\n', seq!['\n']);
    crate::text::lemma_pieces(none, '\n', none);
    assert(none + seq!['\n'] + none == seq!['\n']);
    assert(crate::web::message(event) == line + seq!['\n'] + seq!['\n']);
    assert(crate::text::pieces(seq!['\n'], '\n') == seq![none, none]);
}

// ---------------------------------------------------------------------------
// The stream
// ---------------------------------------------------------------------------

/// An image is sent behind its header, which says that it is a PNG file and how many bytes it has;
/// then the boundary follows on a line of its own.
pub proof fn lemma_part_framed(png: Seq<u8>)
    ensures
        exists|n: Seq<char>|
            crate::text::digits_value(n) == Some(png.len()) && crate::web::part(png)
                == #[trigger] vstd::utf8::encode_utf8(
                "Content-Type: image/png\r\nContent-Length: "@ + n + "\r\n\r\n"@,
            ) + png + vstd::utf8::encode_utf8("\r\n--obsgamepadframe\r\n"@),
{
    let n = crate::text::decimal(png.len());
    crate::text::lemma_decimal(png.len());
    reveal_strlit("\r\n--obsgamepadframe\r\n");
    reveal_strlit("\r\n--");
    reveal_strlit("obsgamepadframe");
    reveal_strlit("\r\n");
    assert(crate::web::closing() == "\r\n--obsgamepadframe\r\n"@);
    assert(crate::web::part(png) == vstd::utf8::encode_utf8(
        "Content-Type: image/png\r\nContent-Length: "@ + n + "\r\n\r\n"@,
    ) + png + vstd::utf8::encode_utf8("\r\n--obsgamepadframe\r\n"@));
}

// ---------------------------------------------------------------------------
// The label page
// ---------------------------------------------------------------------------

/// Whether a text holds `part`.
pub open spec fn holds(text: Seq<char>, part: Seq<char>) -> bool {
    exists|a: Seq<char>, b: Seq<char>| text == #[trigger] (a + part + b)
}

proof fn lemma_holds(text: Seq<char>, a: Seq<char>, part: Seq<char>, b: Seq<char>)
    requires
        text == a + part + b,
    ensures
        holds(text, part),
{
}

proof fn lemma_holds_within(text: Seq<char>, part: Seq<char>, piece: Seq<char>)
    requires
        holds(text, part),
        holds(part, piece),
    ensures
        holds(text, piece),
{
    let (a, b) = choose|a: Seq<char>, b: Seq<char>| text == #[trigger] (a + part + b);
    let (c, d) = choose|c: Seq<char>, d: Seq<char>| part == #[trigger] (c + piece + d);
    assert(text =~= (a + c) + piece + (d + b));
    lemma_holds(text, a + c, piece, d + b);
}

/// The numerals of an image's size.
pub open spec fn spells_size(w: Seq<char>, h: Seq<char>, size: (u32, u32)) -> bool {
    crate::text::digits_value(w) == Some(size.0 as nat) && crate::text::digits_value(h) == Some(
        size.1 as nat,
    )
}

/// The label page goes around an image of the overlay's size: so wide and so high is what holds the
/// stream and the labels, and the script fits that into the window by its width and its height.
pub proof fn lemma_page_sized<B: Backend>(gamepad: Gamepad<B>)
    requires
        gamepad.size() is Some,
    ensures
        crate::page::page_of(gamepad) matches Some(text) && exists|w: Seq<char>, h: Seq<char>|
            #[trigger] spells_size(w, h, gamepad.size()->0) && holds(
                text,
                "#w{position:absolute;top:0;left:0;width:"@ + w + "px;height:"@ + h + "px;"@,
            ) && holds(
                text,
                "Math.min(innerWidth/"@ + w + ",innerHeight/"@ + h + ")*0.8;"@,
            ) && holds(text, "(innerWidth-"@ + w + "*s)/2"@) && holds(
                text,
                "(innerHeight-"@ + h + "*s)/2"@,
            ),
{
    let size = gamepad.size()->0;
    let w = crate::text::decimal(size.0 as nat);
    let h = crate::text::decimal(size.1 as nat);
    crate::text::lemma_decimal(size.0 as nat);
    crate::text::lemma_decimal(size.1 as nat);
    let text = crate::page::page_of(gamepad)->0;
    lemma_page_parts(gamepad);
    lemma_wrapper(size.0 as nat, size.1 as nat);
    lemma_fit(size.0 as nat, size.1 as nat);
    let css = crate::page::wrapper_css(size.0 as nat, size.1 as nat);
    let js = crate::page::fit_js(size.0 as nat, size.1 as nat);
    lemma_holds_within(
        text,
        css,
        "#w{position:absolute;top:0;left:0;width:"@ + w + "px;height:"@ + h + "px;"@,
    );
    lemma_holds_within(
        text,
        js,
        "Math.min(innerWidth/"@ + w + ",innerHeight/"@ + h + ")*0.8;"@,
    );
    lemma_holds_within(text, js, "(innerWidth-"@ + w + "*s)/2"@);
    lemma_holds_within(text, js, "(innerHeight-"@ + h + "*s)/2"@);
    assert(spells_size(w, h, size));
}

proof fn lemma_page_parts<B: Backend>(gamepad: Gamepad<B>)
    requires
        gamepad.size() is Some,
    ensures
        ({
            let (w, h) = gamepad.size()->0;
            let text = crate::page::page_of(gamepad)->0;
            &&& crate::page::page_of(gamepad) is Some
            &&& holds(text, crate::page::wrapper_css(w as nat, h as nat))
            &&& holds(text, crate::page::fit_js(w as nat, h as nat))
        }),
{
    let (w, h) = gamepad.size()->0;
    let text = crate::page::page_of(gamepad)->0;
    let labels = crate::page::labels_html(
        gamepad.inputs.buttons@,
        gamepad.scale,
        gamepad.inputs.buttons@.len(),
    );
    let css = crate::page::wrapper_css(w as nat, h as nat);
    let js = crate::page::fit_js(w as nat, h as nat);
    let none = Seq::<char>::empty();
    let a = crate::pages::LABELS_HEAD@ + css;
    let b = a + crate::pages::LABELS_CSS@ + crate::pages::PANEL_CSS@;
    let c = b + "</style></head><body>"@ + "<div id=\"w\"><img src=\"/stream\" alt=\"overlay\">"@;
    let d = c + labels + "</div>"@;
    let e = d + crate::pages::PANEL_HTML@ + "<script>"@;
    let f = e + js;
    assert(a + none =~= a);
    lemma_holds(a, crate::pages::LABELS_HEAD@, css, none);
    lemma_holds_longer(a, css, crate::pages::LABELS_CSS@, crate::pages::PANEL_CSS@);
    lemma_holds_longer(
        b,
        css,
        "</style></head><body>"@,
        "<div id=\"w\"><img src=\"/stream\" alt=\"overlay\">"@,
    );
    lemma_holds_longer(c, css, labels, "</div>"@);
    lemma_holds_longer(d, css, crate::pages::PANEL_HTML@, "<script>"@);
    lemma_holds_longer(e, css, js, crate::pages::EVENTS_JS@);
    lemma_holds_longer(
        f + crate::pages::EVENTS_JS@,
        css,
        crate::pages::PANEL_JS@,
        "</script></body></html>"@,
    );
    assert(f + none =~= f);
    lemma_holds(f, e, js, none);
    lemma_holds_longer(f, js, crate::pages::EVENTS_JS@, crate::pages::PANEL_JS@);
    lemma_holds_longer(
        f + crate::pages::EVENTS_JS@ + crate::pages::PANEL_JS@,
        js,
        "</script></body></html>"@,
        none,
    );
    assert(text + none =~= text);
}

proof fn lemma_holds_longer(text: Seq<char>, part: Seq<char>, a: Seq<char>, b: Seq<char>)
    requires
        holds(text, part),
    ensures
        holds(text + a + b, part),
{
    let (x, y) = choose|x: Seq<char>, y: Seq<char>| text == #[trigger] (x + part + y);
    assert(text + a + b =~= x + part + (y + a + b));
    lemma_holds(text + a + b, x, part, y + a + b);
}

proof fn lemma_wrapper(w: nat, h: nat)
    ensures
        holds(
            crate::page::wrapper_css(w, h),
            "#w{position:absolute;top:0;left:0;width:"@ + crate::text::decimal(w) + "px;height:"@
                + crate::text::decimal(h) + "px;"@,
        ),
{
    reveal_strlit("px;transform-origin:top left}");
    reveal_strlit("px;");
    reveal_strlit("transform-origin:top left}");
    assert("px;transform-origin:top left}"@ =~= "px;"@ + "transform-origin:top left}"@);
    let part = "#w{position:absolute;top:0;left:0;width:"@ + crate::text::decimal(w)
        + "px;height:"@ + crate::text::decimal(h) + "px;"@;
    let none = Seq::<char>::empty();
    assert(crate::page::wrapper_css(w, h) =~= none + part + "transform-origin:top left}"@);
    lemma_holds(crate::page::wrapper_css(w, h), none, part, "transform-origin:top left}"@);
}

proof fn lemma_fit(w: nat, h: nat)
    ensures
        ({
            let a = crate::text::decimal(w);
            let b = crate::text::decimal(h);
            let js = crate::page::fit_js(w, h);
            &&& holds(js, "Math.min(innerWidth/"@ + a + ",innerHeight/"@ + b + ")*0.8;"@)
            &&& holds(js, "(innerWidth-"@ + a + "*s)/2"@)
            &&& holds(js, "(innerHeight-"@ + b + "*s)/2"@)
        }),
{
    let a = crate::text::decimal(w);
    let b = crate::text::decimal(h);
    let js = crate::page::fit_js(w, h);
    let p = "var w=document.getElementById('w');function fit(){var s=Math.min(innerWidth/"@;
    let q = ")*0.8;w.style.transform='translate('+((innerWidth-"@;
    let r = "*s)/2)+'px,'+((innerHeight-"@;
    let z = "*s)/2)+'px) scale('+s+')';}\n        addEventListener('resize',fit);fit();"@;
    let m = ",innerHeight/"@;
    lemma_fit_texts();
    let p0 = "var w=document.getElementById('w');function fit(){var s="@;
    let p1 = "Math.min(innerWidth/"@;
    let q0 = ")*0.8;"@;
    let q1 = "w.style.transform='translate('+("@;
    let q2 = "(innerWidth-"@;
    let r0 = "*s)/2"@;
    let r1 = ")+'px,'+("@;
    let r2 = "(innerHeight-"@;
    let z1 = ")+'px) scale('+s+')';}\n        addEventListener('resize',fit);fit();"@;
    let head = p + a + m + b;
    let tail = a + r + b + z;
    assert(js == head + q + a + r + b + z);
    lemma_grouped(head + q, a, r, b, z);
    assert(js == head + q + tail);
    // The first place: the size in the scale.
    lemma_grouped_first(p0, p1, a, m, b, q0);
    lemma_between(head, q0, q1 + q2, tail);
    assert(q =~= q0 + (q1 + q2));
    assert(head + q0 == p0 + (p1 + a + m + b + q0));
    lemma_holds(js, p0, p1 + a + m + b + q0, (q1 + q2) + tail);
    // The second place: half of what is left beside the image.
    lemma_middle(head + q0 + q1, q2, a, r0, r1 + r2, b + z);
    assert(head + q =~= head + q0 + q1 + q2);
    assert(r =~= r0 + (r1 + r2));
    assert(a + r + (b + z) =~= tail);
    lemma_holds(js, head + q0 + q1, q2 + a + r0, (r1 + r2) + (b + z));
    // The third place: half of what is left below it.
    lemma_middle(head + q + a + r0 + r1, r2, b, r0, z1, seq![]);
    assert(head + q + a + r =~= head + q + a + r0 + r1 + r2);
    assert(b + (r0 + z1) + Seq::<char>::empty() =~= b + z);
    assert(js =~= (head + q + a + r) + (b + z));
    assert(z1 + Seq::<char>::empty() =~= z1);
    lemma_holds(js, head + q + a + r0 + r1, r2 + b + r0, z1);
}

proof fn lemma_grouped(a: Seq<char>, b: Seq<char>, c: Seq<char>, d: Seq<char>, e: Seq<char>)
    ensures
        a + b + c + d + e == a + (b + c + d + e),
{
    assert(a + b + c + d + e =~= a + (b + c + d + e));
}

proof fn lemma_grouped_first(
    a: Seq<char>,
    b: Seq<char>,
    c: Seq<char>,
    d: Seq<char>,
    e: Seq<char>,
    f: Seq<char>,
)
    ensures
        (a + b) + c + d + e + f == a + (b + c + d + e + f),
{
    assert((a + b) + c + d + e + f =~= a + (b + c + d + e + f));
}

proof fn lemma_between(a: Seq<char>, b: Seq<char>, c: Seq<char>, d: Seq<char>)
    ensures
        a + (b + c) + d == (a + b) + (c + d),
{
    assert(a + (b + c) + d =~= (a + b) + (c + d));
}

proof fn lemma_middle(
    a: Seq<char>,
    b: Seq<char>,
    c: Seq<char>,
    d: Seq<char>,
    e: Seq<char>,
    f: Seq<char>,
)
    ensures
        (a + b) + (c + (d + e) + f) == a + (b + c + d) + (e + f),
{
    assert((a + b) + (c + (d + e) + f) =~= a + (b + c + d) + (e + f));
}

proof fn lemma_fit_texts()
    ensures
        "var w=document.getElementById('w');function fit(){var s=Math.min(innerWidth/"@
            == "var w=document.getElementById('w');function fit(){var s="@
            + "Math.min(innerWidth/"@,
        ")*0.8;w.style.transform='translate('+((innerWidth-"@ == ")*0.8;"@
            + "w.style.transform='translate('+("@ + "(innerWidth-"@,
        "*s)/2)+'px,'+((innerHeight-"@ == "*s)/2"@ + ")+'px,'+("@ + "(innerHeight-"@,
        "*s)/2)+'px) scale('+s+')';}\n        addEventListener('resize',fit);fit();"@ == "*s)/2"@
            + ")+'px) scale('+s+')';}\n        addEventListener('resize',fit);fit();"@,
{
    reveal_strlit("var w=document.getElementById('w');function fit(){var s=Math.min(innerWidth/");
    reveal_strlit("var w=document.getElementById('w');function fit(){var s=");
    reveal_strlit("Math.min(innerWidth/");
    reveal_strlit(")*0.8;w.style.transform='translate('+((innerWidth-");
    reveal_strlit(")*0.8;");
    reveal_strlit("w.style.transform='translate('+(");
    reveal_strlit("(innerWidth-");
    reveal_strlit("*s)/2)+'px,'+((innerHeight-");
    reveal_strlit("*s)/2");
    reveal_strlit(")+'px,'+(");
    reveal_strlit("(innerHeight-");
    reveal_strlit("*s)/2)+'px) scale('+s+')';}\n        addEventListener('resize',fit);fit();");
    reveal_strlit(")+'px) scale('+s+')';}\n        addEventListener('resize',fit);fit();");
    assert("var w=document.getElementById('w');function fit(){var s=Math.min(innerWidth/"@
        =~= "var w=document.getElementById('w');function fit(){var s="@ + "Math.min(innerWidth/"@);
    assert(")*0.8;w.style.transform='translate('+((innerWidth-"@ =~= ")*0.8;"@
        + "w.style.transform='translate('+("@ + "(innerWidth-"@);
    assert("*s)/2)+'px,'+((innerHeight-"@ =~= "*s)/2"@ + ")+'px,'+("@ + "(innerHeight-"@);
    assert("*s)/2)+'px) scale('+s+')';}\n        addEventListener('resize',fit);fit();"@
        =~= "*s)/2"@ + ")+'px) scale('+s+')';}\n        addEventListener('resize',fit);fit();"@);
}

// ---------------------------------------------------------------------------
// The greeting
// ---------------------------------------------------------------------------

/// The greeting says where the overlay is: at the address of the machine, if that is known, and at
/// the port.
pub proof fn lemma_greeting(ip: Seq<char>, port: u16)
    ensures
        exists|n: Seq<char>|
            crate::text::digits_value(n) == Some(port as nat) && holds(
                crate::web::greeting(Some(ip), port),
                #[trigger] ("http://"@ + ip + ":"@ + n),
            ),
        exists|n: Seq<char>|
            crate::text::digits_value(n) == Some(port as nat) && holds(
                crate::web::greeting(None, port),
                #[trigger] ("http://<this-machine-ip>:"@ + n),
            ),
{
    let n = crate::text::decimal(port as nat);
    crate::text::lemma_decimal(port as nat);
    reveal_strlit("Serving overlay at http://");
    reveal_strlit("Serving overlay at ");
    reveal_strlit("http://");
    reveal_strlit(" at http://<this-machine-ip>:");
    reveal_strlit(" at ");
    reveal_strlit("http://<this-machine-ip>:");
    assert("Serving overlay at http://"@ =~= "Serving overlay at "@ + "http://"@);
    assert(" at http://<this-machine-ip>:"@ =~= " at "@ + "http://<this-machine-ip>:"@);
    let a = "http://"@ + ip + ":"@ + n;
    let rest = " (also reachable from other devices on your network)\n"@ + crate::web::ENDPOINTS@;
    assert(crate::web::greeting(Some(ip), port) =~= "Serving overlay at "@ + a + rest);
    lemma_holds(crate::web::greeting(Some(ip), port), "Serving overlay at "@, a, rest);
    let b = "http://<this-machine-ip>:"@ + n;
    let head = "Serving overlay on port "@ + n + " at "@;
    let tail = "\n"@ + crate::web::ENDPOINTS@;
    assert(crate::web::greeting(None, port) =~= head + b + tail);
    lemma_holds(crate::web::greeting(None, port), head, b, tail);
}

} // verus!
