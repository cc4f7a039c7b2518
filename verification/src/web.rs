//! The web overlay: which request gets what, the frame that clients share, and what each client
//! is sent.

use crate::canvas::to_png;
use crate::gamepad::{Backend, Gamepad};
use crate::page::build_labels_page;
use crate::skin::skin_event;
use crate::text::{chars_of, find_from, is_text, push_decimal, starts_with, text_of};
use tiny_skia::Pixmap;
use vstd::prelude::*;

verus! {

// ---------------------------------------------------------------------------
// Requests
// ---------------------------------------------------------------------------

/// A document of the server.
#[derive(Debug, Clone, Copy, PartialEq, Eq, Structural)]
pub enum Resource {
    /// The viewer page.
    Index,
    /// The overlay with labels.
    Labels,
    /// The skin page.
    Skin,
    /// The style sheet of the skin page.
    SkinStyle,
    /// The font of the label page.
    Font,
    /// An image of the skin page, by its place in the list of images.
    Image(usize),
}

/// What a request gets.
#[derive(Debug, Clone, Copy, PartialEq, Eq, Structural)]
pub enum Route {
    /// The stream of images.
    Stream,
    /// The stream of skin events.
    Events,
    /// A document.
    Document(Resource),
    /// Nothing: there is no such thing.
    NotFound,
}

/// The number of images of the skin page.
pub const IMAGE_COUNT: usize = 11;

/// The path that the images of the skin page are under.
pub const IMAGE_PREFIX: &'static str = "/skin/images/";

/// The file name of an image of the skin page.
pub open spec fn image_file(i: int) -> Seq<char> {
    if i == 0 {
        "menus_buttons_xbox_A.png"@
    } else if i == 1 {
        "menus_buttons_xbox_B.png"@
    } else if i == 2 {
        "menus_buttons_xbox_X.png"@
    } else if i == 3 {
        "menus_buttons_xbox_Y.png"@
    } else if i == 4 {
        "menus_buttons_xbox_LB.png"@
    } else if i == 5 {
        "menus_buttons_xbox_RB.png"@
    } else if i == 6 {
        "menus_buttons_xbox_LT.png"@
    } else if i == 7 {
        "menus_buttons_xbox_RT.png"@
    } else if i == 8 {
        "menus_buttons_xbox_LSB_allGrey.png"@
    } else if i == 9 {
        "menus_buttons_xbox_LSB_white.png"@
    } else {
        "Empty.png"@
    }
}

/// The file name of an image of the skin page.
pub fn image_name(i: usize) -> (r: &'static str)
    requires
        i < IMAGE_COUNT,
    ensures
        r@ == image_file(i as int),
{
    if i == 0 {
        "menus_buttons_xbox_A.png"
    } else if i == 1 {
        "menus_buttons_xbox_B.png"
    } else if i == 2 {
        "menus_buttons_xbox_X.png"
    } else if i == 3 {
        "menus_buttons_xbox_Y.png"
    } else if i == 4 {
        "menus_buttons_xbox_LB.png"
    } else if i == 5 {
        "menus_buttons_xbox_RB.png"
    } else if i == 6 {
        "menus_buttons_xbox_LT.png"
    } else if i == 7 {
        "menus_buttons_xbox_RT.png"
    } else if i == 8 {
        "menus_buttons_xbox_LSB_allGrey.png"
    } else if i == 9 {
        "menus_buttons_xbox_LSB_white.png"
    } else {
        "Empty.png"
    }
}

/// The first image from place `i` on with the given file name.
pub open spec fn image_from(name: Seq<char>, i: nat) -> Option<usize>
    decreases IMAGE_COUNT - i,
{
    if i >= IMAGE_COUNT {
        None
    } else if image_file(i as int) == name {
        Some(i as usize)
    } else {
        image_from(name, i + 1)
    }
}

fn find_image(name: &str) -> (r: Option<usize>)
    ensures
        r == image_from(name@, 0),
{
    let mut i: usize = 0;
    while i < IMAGE_COUNT
        invariant
            i <= IMAGE_COUNT,
            image_from(name@, 0) == image_from(name@, i as nat),
        decreases IMAGE_COUNT - i,
    {
        if *image_name(i) == *name {
            return Some(i);
        }
        i += 1;
    }
    None
}

/// The path of a request's address: what stands before the first question mark.
pub open spec fn path_of(url: Seq<char>) -> Seq<char> {
    url.take(crate::text::find(url, '?') as int)
}

/// The query of a request's address: what stands behind the first question mark.
pub open spec fn query_of(url: Seq<char>) -> Seq<char> {
    if crate::text::find(url, '?') < url.len() {
        url.skip(crate::text::find(url, '?') as int + 1)
    } else {
        seq![]
    }
}

/// Whether a parameter of a query asks for labels.
pub open spec fn asks_labels(parameter: Seq<char>) -> bool {
    parameter == "labels"@ || crate::text::has_prefix(parameter, "labels="@)
}

/// Whether a query asks for labels.
pub open spec fn wants_labels(query: Seq<char>) -> bool {
    exists|i: int|
        0 <= i < crate::text::pieces(query, '&').len() && asks_labels(
            #[trigger] crate::text::pieces(query, '&')[i],
        )
}

/// What a request for a path gets, with or without labels.
pub open spec fn routed(path: Seq<char>, labels: bool) -> Route {
    if path == "/stream"@ {
        Route::Stream
    } else if path == "/events"@ {
        Route::Events
    } else if path == "/"@ {
        if labels {
            Route::Document(Resource::Labels)
        } else {
            Route::Document(Resource::Index)
        }
    } else if path == "/skin"@ {
        Route::Document(Resource::Skin)
    } else if path == "/skin/skin.css"@ {
        Route::Document(Resource::SkinStyle)
    } else if path == "/fonts/teko.ttf"@ {
        Route::Document(Resource::Font)
    } else if crate::text::has_prefix(path, IMAGE_PREFIX@) {
        match image_from(path.skip(IMAGE_PREFIX@.len() as int), 0) {
            Some(i) => Route::Document(Resource::Image(i)),
            None => Route::NotFound,
        }
    } else {
        Route::NotFound
    }
}

/// Whether the parameters in `chars[from..]` ask for labels.
fn query_wants_labels(chars: &Vec<char>, from: usize) -> (r: bool)
    requires
        from <= chars@.len(),
    ensures
        r == wants_labels(chars@.skip(from as int)),
    decreases chars@.len() - from,
{
    let ghost query = chars@.skip(from as int);
    let end = find_from(chars, from, '&');
    let ghost piece = chars@.subrange(from as int, end as int);
    proof {
        crate::text::lemma_find(query, '&');
        assert(piece == query.take(end - from));
    }
    let found = is_text(chars, from, end, "labels") || starts_with(chars, from, end, "labels=");
    if end >= chars.len() {
        proof {
            assert(query.take(query.len() as int) == query);
            assert(crate::text::pieces(query, '&')[0] == piece);
        }
        return found;
    }
    let ghost rest = chars@.skip(end + 1);
    let ghost tail = crate::text::pieces(rest, '&');
    let ghost all = crate::text::pieces(query, '&');
    proof {
        assert(query.skip(end - from + 1) == rest);
        assert(all == seq![piece] + tail);
        assert(all[0] == piece);
    }
    if found {
        return true;
    }
    let r = query_wants_labels(chars, end + 1);
    proof {
        if r {
            let i = choose|i: int| 0 <= i < tail.len() && asks_labels(#[trigger] tail[i]);
            assert(all[i + 1] == tail[i]);
        }
        if wants_labels(query) {
            let i = choose|i: int| 0 <= i < all.len() && asks_labels(#[trigger] all[i]);
            assert(all[i] == tail[i - 1]);
        }
    }
    r
}

/// What a request for an address gets.
pub fn route(url: &str) -> (r: Route)
    ensures
        r == routed(path_of(url@), wants_labels(query_of(url@))),
{
    let chars = chars_of(url);
    let end = find_from(&chars, 0, '?');
    assert(chars@.skip(0) == chars@);
    proof {
        crate::text::lemma_find(chars@, '?');
    }
    let path = text_of(&chars, 0, end);
    assert(path@ == path_of(url@));
    let p = path.as_str();
    if *p == *"/stream" {
        Route::Stream
    } else if *p == *"/events" {
        Route::Events
    } else if *p == *"/" {
        let labels = if end < chars.len() {
            query_wants_labels(&chars, end + 1)
        } else {
            query_wants_labels(&chars, end)
        };
        assert(chars@.skip(chars@.len() as int) == Seq::<char>::empty());
        if labels {
            Route::Document(Resource::Labels)
        } else {
            Route::Document(Resource::Index)
        }
    } else if *p == *"/skin" {
        Route::Document(Resource::Skin)
    } else if *p == *"/skin/skin.css" {
        Route::Document(Resource::SkinStyle)
    } else if *p == *"/fonts/teko.ttf" {
        Route::Document(Resource::Font)
    } else if starts_with(&chars, 0, end, IMAGE_PREFIX) {
        let start = chars_of(IMAGE_PREFIX).len();
        let name = text_of(&chars, start, end);
        assert(name@ == path@.skip(start as int));
        match find_image(name.as_str()) {
            Some(i) => Route::Document(Resource::Image(i)),
            None => Route::NotFound,
        }
    } else {
        Route::NotFound
    }
}

/// The media type of a document.
pub open spec fn media_type(resource: Resource) -> Seq<char> {
    match resource {
        Resource::Index | Resource::Labels | Resource::Skin => "text/html; charset=utf-8"@,
        Resource::SkinStyle => "text/css; charset=utf-8"@,
        Resource::Font => "font/ttf"@,
        Resource::Image(_) => "image/png"@,
    }
}

/// The media type of a document.
pub fn content_type(resource: Resource) -> (r: &'static str)
    ensures
        r@ == media_type(resource),
{
    match resource {
        Resource::Index | Resource::Labels | Resource::Skin => "text/html; charset=utf-8",
        Resource::SkinStyle => "text/css; charset=utf-8",
        Resource::Font => "font/ttf",
        Resource::Image(_) => "image/png",
    }
}

// ---------------------------------------------------------------------------
// The shared frame
// ---------------------------------------------------------------------------

/// The most recently rendered frame. Its number goes up with every frame, so that clients can
/// tell when there is something new to send.
#[derive(Debug)]
pub struct Frame {
    pub seq: u64,
    /// The image, as a PNG file; empty before the first one.
    pub png: Vec<u8>,
    /// The event text for the skin view.
    pub event: String,
}

impl Frame {
    /// No frame yet.
    pub fn new() -> (r: Frame)
        ensures
            r.seq == 0,
            r.png@.len() == 0,
            r.event@.len() == 0,
    {
        Frame { seq: 0, png: Vec::new(), event: String::new() }
    }

    /// Whether `self` follows `before` with the image `png`, or is the same where there is none.
    pub open spec fn follows(self, before: Frame, png: Option<Seq<u8>>, event: Seq<char>) -> bool {
        match png {
            Some(bytes) => {
                &&& self.seq == before.seq + 1
                &&& self.png@ == bytes
                &&& self.event@ == event
            },
            None => self == before,
        }
    }
}

/// Makes an encoded image and its event the current frame. Without an image the frame stays.
/// Says whether there is a new frame.
pub fn publish_encoded(frame: &mut Frame, png: Option<Vec<u8>>, event: String) -> (r: bool)
    requires
        old(frame).seq < u64::MAX,
    ensures
        match png {
            Some(bytes) => r && final(frame).follows(*old(frame), Some(bytes@), event@),
            None => !r && final(frame).follows(*old(frame), None, event@),
        },
{
    match png {
        Some(bytes) => {
            frame.seq = frame.seq + 1;
            frame.png = bytes;
            frame.event = event;
            true
        },
        None => false,
    }
}

/// Makes an image and its event the current frame. An image that cannot be encoded is dropped.
/// Says whether there is a new frame.
pub fn publish(frame: &mut Frame, img: &Pixmap, event: String) -> (r: bool)
    requires
        old(frame).seq < u64::MAX,
    ensures
        r == crate::canvas::png_of(*img) is Some,
        final(frame).follows(*old(frame), crate::canvas::png_of(*img), event@),
{
    let png = to_png(img);
    publish_encoded(frame, png, event)
}

/// Sends the current frame once more, without encoding it again: a browser shows an image of a
/// stream only once the next one begins to arrive. Says whether there is a frame to send.
pub fn republish(frame: &mut Frame) -> (r: bool)
    requires
        old(frame).seq < u64::MAX || old(frame).png@.len() == 0,
    ensures
        r == (old(frame).png@.len() > 0),
        final(frame).seq == old(frame).seq + if r {
            1int
        } else {
            0int
        },
        final(frame).png == old(frame).png,
        final(frame).event == old(frame).event,
{
    if frame.png.len() == 0 {
        return false;
    }
    frame.seq = frame.seq + 1;
    true
}

/// Looks at the controller once. Says whether there is something new to draw; if not, the current
/// frame is sent once more.
pub fn tick<B: Backend>(gamepad: &mut Gamepad<B>, frame: &mut Frame) -> (redraw: bool)
    requires
        old(gamepad).ready(),
        old(frame).seq < u64::MAX,
    ensures
        final(gamepad).ready(),
        old(gamepad).wf() ==> final(gamepad).wf(),
        final(gamepad).inputs == old(gamepad).inputs,
        final(gamepad).scale == old(gamepad).scale,
        final(gamepad).render_labels == old(gamepad).render_labels,
        match old(gamepad).backend {
            Some(b) => {
                &&& b.reports(old(gamepad).input_state, final(gamepad).input_state, redraw)
                &&& final(gamepad).backend matches Some(c) && b.polled(c)
            },
            None => !redraw && *final(gamepad) == *old(gamepad),
        },
        final(frame).seq == old(frame).seq + if !redraw && old(frame).png@.len() > 0 {
            1int
        } else {
            0int
        },
        final(frame).png == old(frame).png,
        final(frame).event == old(frame).event,
{
    let redraw = gamepad.poll();
    if !redraw {
        let _ = republish(frame);
    }
    redraw
}

// ---------------------------------------------------------------------------
// What is served
// ---------------------------------------------------------------------------

/// What clients are served: the current frame, and the label page.
#[derive(Debug)]
pub struct Site {
    pub frame: Frame,
    /// The label page, made anew with every layout.
    pub labels: String,
}

/// The event text for what a gamepad shows.
pub open spec fn event_of<B: Backend>(gamepad: Gamepad<B>) -> Seq<char> {
    crate::skin::SkinState::shown(gamepad.inputs, gamepad.input_state).text()
}

impl Site {
    /// Whether all that clients are served belongs to a gamepad: the frame is the image `img` of
    /// the overlay's size with the event text of the gamepad, and the label page is that of its
    /// layout.
    pub open spec fn shows<B: Backend>(self, gamepad: Gamepad<B>, img: Pixmap) -> bool {
        &&& gamepad.size() == Some(crate::canvas::pixmap_size(img))
        &&& crate::canvas::png_of(img) == Some(self.frame.png@)
        &&& self.frame.event@ == event_of(gamepad)
        &&& crate::page::page_of(gamepad) == Some(self.labels@)
    }

    /// Whether `self` is `before` with the image `img` of a gamepad for its frame, where that can
    /// be encoded.
    pub open spec fn shown<B: Backend>(
        self,
        before: Site,
        gamepad: Gamepad<B>,
        img: Pixmap,
    ) -> bool {
        &&& self.frame.follows(before.frame, crate::canvas::png_of(img), event_of(gamepad))
        &&& self.labels@ == before.labels@
    }

    /// Whether `self` is `before` with the image `img` of a gamepad for its frame, where that can
    /// be encoded, and the label page of the gamepad.
    pub open spec fn shown_anew<B: Backend>(
        self,
        before: Site,
        gamepad: Gamepad<B>,
        img: Pixmap,
    ) -> bool {
        &&& self.frame.follows(before.frame, crate::canvas::png_of(img), event_of(gamepad))
        &&& crate::page::page_of(gamepad) == Some(self.labels@)
    }

    /// What is served before the first frame; `None` if the layout does not fit into a rectangle.
    pub fn new<B: Backend>(gamepad: &Gamepad<B>) -> (r: Option<Site>)
        ensures
            r is Some == gamepad.size() is Some,
            r matches Some(site) ==> {
                &&& site.frame.seq == 0
                &&& site.frame.png@.len() == 0
                &&& site.frame.event@.len() == 0
                &&& crate::page::page_of(*gamepad) == Some(site.labels@)
            },
    {
        match build_labels_page(gamepad) {
            Some(labels) => Some(Site { frame: Frame::new(), labels }),
            None => None,
        }
    }

    /// Makes the image of a gamepad the current frame. Says whether there is a new frame.
    pub fn show<B: Backend>(&mut self, gamepad: &Gamepad<B>, img: &Pixmap) -> (r: bool)
        requires
            old(self).frame.seq < u64::MAX,
            crate::skin::raw_fits(gamepad.inputs, gamepad.input_state),
        ensures
            r == crate::canvas::png_of(*img) is Some,
            final(self).shown(*old(self), *gamepad, *img),
    {
        publish(&mut self.frame, img, skin_event(gamepad))
    }

    /// Makes the image of a gamepad with another layout the current frame, and the label page that
    /// of the layout. Says whether there is a new frame.
    pub fn show_layout<B: Backend>(&mut self, gamepad: &Gamepad<B>, img: &Pixmap) -> (r: bool)
        requires
            old(self).frame.seq < u64::MAX,
            crate::skin::raw_fits(gamepad.inputs, gamepad.input_state),
            gamepad.size() is Some,
        ensures
            r == crate::canvas::png_of(*img) is Some,
            final(self).shown_anew(*old(self), *gamepad, *img),
    {
        let r = self.show(gamepad, img);
        if let Some(labels) = build_labels_page(gamepad) {
            self.labels = labels;
        }
        r
    }
}

/// Once an accepted layout is drawn and shown, the image, the frame, its event text and the label
/// page all belong to that layout, at the origin; clients can tell that the frame is a new one.
pub proof fn lemma_layout_shown<B: Backend>(
    before: (Gamepad<B>, Pixmap),
    config: crate::layout::Config,
    gamepad: Gamepad<B>,
    img: Pixmap,
    drawn: Pixmap,
    old_site: Site,
    site: Site,
)
    requires
        crate::live::outcome(before.0, before.1, Some(config)) is Kept || crate::live::outcome(
            before.0,
            before.1,
            Some(config),
        ) is Resized,
        crate::live::reloaded(before, Some(config), true, gamepad, img),
        crate::canvas::pixmap_size(drawn) == crate::canvas::pixmap_size(img),
        crate::canvas::png_of(drawn) is Some,
        site.shown_anew(old_site, gamepad, drawn),
    ensures
        config.arranged(gamepad.inputs),
        !gamepad.render_labels,
        site.shows(gamepad, drawn),
        site.frame.seq == old_site.frame.seq + 1,
{
    crate::live::lemma_reloaded(before, Some(config), true, gamepad, img);
}

/// What is served belongs to a gamepad as long as its images can be encoded: a change of the
/// controller that is drawn and shown keeps the label page, which depends on the layout alone.
pub proof fn lemma_change_shown<B: Backend>(
    before: Gamepad<B>,
    gamepad: Gamepad<B>,
    img: Pixmap,
    drawn: Pixmap,
    old_site: Site,
    site: Site,
)
    requires
        old_site.shows(before, img),
        gamepad.inputs == before.inputs,
        gamepad.scale == before.scale,
        crate::canvas::pixmap_size(drawn) == crate::canvas::pixmap_size(img),
        crate::canvas::png_of(drawn) is Some,
        site.shown(old_site, gamepad, drawn),
    ensures
        site.shows(gamepad, drawn),
{
}

// ---------------------------------------------------------------------------
// Skin events
// ---------------------------------------------------------------------------

/// The head of the answer that skin events follow.
pub const EVENTS_HEAD: &'static str = "HTTP/1.1 200 OK\r\n\
Content-Type: text/event-stream\r\n\
Cache-Control: no-store\r\n\
Connection: close\r\n\r\n";

/// A client of the skin events.
#[derive(Debug)]
pub struct EventFeed {
    /// The number of the frame seen last.
    pub last_seq: u64,
    /// The event sent last, if any.
    pub last_event: Option<String>,
}

/// What to do for a client of the skin events.
#[derive(Debug)]
pub enum FeedStep {
    /// Wait for another frame.
    Wait,
    /// Nothing: the frame brings no new event.
    Skip,
    /// Send a message.
    Send(String),
}

/// What a client of the skin events has seen: the number of a frame, and the event sent last.
pub type Seen = (u64, Option<Seq<char>>);

/// What an event looks like on its way.
pub open spec fn message(event: Seq<char>) -> Seq<char> {
    "data: "@ + event + "\n\n"@
}

/// Whether a client that has seen `seen` is sent the event of a frame: if the frame is another
/// one, and so is its event.
pub open spec fn news(seen: Seen, seq: u64, event: Seq<char>) -> bool {
    seq != seen.0 && seen.1 != Some(event)
}

/// What a client has seen after a frame.
pub open spec fn seen_after(seen: Seen, seq: u64, event: Seq<char>) -> Seen {
    (
        seq,
        if news(seen, seq, event) {
            Some(event)
        } else {
            seen.1
        },
    )
}

impl View for EventFeed {
    type V = Seen;

    open spec fn view(&self) -> Seen {
        (
            self.last_seq,
            match self.last_event {
                Some(e) => Some(e@),
                None => None,
            },
        )
    }
}

impl EventFeed {
    /// A client that has seen nothing yet.
    pub fn new() -> (r: EventFeed)
        ensures
            r@ == (0u64, None::<Seq<char>>),
    {
        EventFeed { last_seq: 0, last_event: None }
    }

    /// What to do for the client at the current frame.
    pub fn step(&mut self, frame: &Frame) -> (r: FeedStep)
        ensures
            final(self)@ == seen_after(old(self)@, frame.seq, frame.event@),
            match r {
                FeedStep::Wait => frame.seq == old(self).last_seq,
                FeedStep::Skip => frame.seq != old(self).last_seq && !news(
                    old(self)@,
                    frame.seq,
                    frame.event@,
                ),
                FeedStep::Send(text) => news(old(self)@, frame.seq, frame.event@) && text@
                    == message(frame.event@),
            },
    {
        if frame.seq == self.last_seq {
            return FeedStep::Wait;
        }
        self.last_seq = frame.seq;
        if let Some(last) = &self.last_event {
            if *last.as_str() == *frame.event.as_str() {
                return FeedStep::Skip;
            }
        }
        let mut text = String::new();
        text.append("data: ");
        text.append(frame.event.as_str());
        text.append("\n\n");
        let mut event = String::new();
        event.append(frame.event.as_str());
        assert(event@ == frame.event@);
        self.last_event = Some(event);
        FeedStep::Send(text)
    }
}

// ---------------------------------------------------------------------------
// The image stream
// ---------------------------------------------------------------------------

/// What separates the images of a stream.
pub const BOUNDARY: &'static str = "obsgamepadframe";

/// The head of the answer that the images follow, with the opening boundary.
pub open spec fn stream_opening() -> Seq<char> {
    "HTTP/1.1 200 OK\r\nContent-Type: multipart/x-mixed-replace; boundary="@ + BOUNDARY@
        + "\r\nCache-Control: no-store\r\nConnection: close\r\n\r\n--"@ + BOUNDARY@ + "\r\n"@
}

/// The head of the answer that the images follow, with the opening boundary.
pub fn stream_head() -> (r: String)
    ensures
        r@ == stream_opening(),
{
    let mut out = String::new();
    out.append("HTTP/1.1 200 OK\r\nContent-Type: multipart/x-mixed-replace; boundary=");
    out.append(BOUNDARY);
    out.append("\r\nCache-Control: no-store\r\nConnection: close\r\n\r\n--");
    out.append(BOUNDARY);
    out.append("\r\n");
    out
}

/// The boundary that closes an image.
pub open spec fn closing() -> Seq<char> {
    "\r\n--"@ + BOUNDARY@ + "\r\n"@
}

/// The boundary that closes an image. It is sent together with the image, so that the client
/// shows the image as it arrives.
pub fn stream_trailer() -> (r: String)
    ensures
        r@ == closing(),
{
    let mut out = String::new();
    out.append("\r\n--");
    out.append(BOUNDARY);
    out.append("\r\n");
    out
}

/// What stands before an image of `len` bytes.
pub open spec fn part_opening(len: nat) -> Seq<char> {
    "Content-Type: image/png\r\nContent-Length: "@ + crate::text::decimal(len) + "\r\n\r\n"@
}

/// What stands before an image.
pub fn part_header(png: &Vec<u8>) -> (r: String)
    ensures
        r@ == part_opening(png@.len()),
{
    let mut out = String::new();
    out.append("Content-Type: image/png\r\nContent-Length: ");
    push_decimal(&mut out, png.len() as u128);
    out.append("\r\n\r\n");
    out
}

/// A part of the stream: what stands before an image, the image, and the boundary that closes it.
pub open spec fn part(png: Seq<u8>) -> Seq<u8> {
    vstd::utf8::encode_utf8(part_opening(png.len())) + png + vstd::utf8::encode_utf8(closing())
}

/// A part of the stream, to be sent as a whole: so the client shows the image as it arrives.
pub fn stream_part(png: &Vec<u8>) -> (r: Vec<u8>)
    ensures
        r@ == part(png@),
{
    let header = part_header(png);
    let trailer = stream_trailer();
    let mut out: Vec<u8> = Vec::new();
    out.extend_from_slice(header.as_str().as_bytes());
    out.extend_from_slice(png.as_slice());
    out.extend_from_slice(trailer.as_str().as_bytes());
    out
}

/// A client of the image stream.
#[derive(Debug)]
pub struct StreamFeed {
    /// The number of the frame sent last.
    pub last_seq: u64,
}

impl StreamFeed {
    /// A client that has been sent nothing yet.
    pub fn new() -> (r: StreamFeed)
        ensures
            r.last_seq == 0,
    {
        StreamFeed { last_seq: 0 }
    }

    /// The part of the stream with the image of the current frame, if the client has yet to be
    /// sent that.
    pub fn step(&mut self, frame: &Frame) -> (r: Option<Vec<u8>>)
        ensures
            final(self).last_seq == frame.seq,
            match r {
                Some(bytes) => frame.seq != old(self).last_seq && bytes@ == part(frame.png@),
                None => frame.seq == old(self).last_seq,
            },
    {
        if frame.seq == self.last_seq {
            return None;
        }
        self.last_seq = frame.seq;
        Some(stream_part(&frame.png))
    }
}

// ---------------------------------------------------------------------------
// The greeting
// ---------------------------------------------------------------------------

/// The lines that list what is served.
pub const ENDPOINTS: &'static str = "  rendered overlay:  /stream   (transparent MJPEG, point OBS here)\n  \
CSS-skin overlay:  /skin     (Xbox fight-stick skin)\n  \
labeled overlay:   /?labels  (button names, for reference)\n";

/// Where the overlay is served.
pub open spec fn greeting(ip: Option<Seq<char>>, port: u16) -> Seq<char> {
    let p = crate::text::decimal(port as nat);
    match ip {
        Some(ip) => "Serving overlay at http://"@ + ip + ":"@ + p
            + " (also reachable from other devices on your network)\n"@ + ENDPOINTS@,
        None => "Serving overlay on port "@ + p + " at http://<this-machine-ip>:"@ + p + "\n"@
            + ENDPOINTS@,
    }
}

/// Where the overlay is served, for the person who started it.
pub fn banner(ip: &Option<String>, port: u16) -> (r: String)
    ensures
        r@ == greeting(
            match *ip {
                Some(s) => Some(s@),
                None => None,
            },
            port,
        ),
{
    let mut out = String::new();
    match ip {
        Some(ip) => {
            out.append("Serving overlay at http://");
            out.append(ip.as_str());
            out.append(":");
            push_decimal(&mut out, port as u128);
            out.append(" (also reachable from other devices on your network)\n");
        },
        None => {
            out.append("Serving overlay on port ");
            push_decimal(&mut out, port as u128);
            out.append(" at http://<this-machine-ip>:");
            push_decimal(&mut out, port as u128);
            out.append("\n");
        },
    }
    out.append(ENDPOINTS);
    out
}

// ---------------------------------------------------------------------------
// What clients can rely on
// ---------------------------------------------------------------------------

proof fn lemma_image_names(i: int)
    requires
        0 <= i < IMAGE_COUNT,
    ensures
        forall|k: int| 0 <= k < image_file(i).len() ==> image_file(i)[k] != '?',
        forall|j: int| 0 <= j < i ==> #[trigger] image_file(j) != image_file(i),
{
    reveal_strlit("menus_buttons_xbox_A.png");
    reveal_strlit("menus_buttons_xbox_B.png");
    reveal_strlit("menus_buttons_xbox_X.png");
    reveal_strlit("menus_buttons_xbox_Y.png");
    reveal_strlit("menus_buttons_xbox_LB.png");
    reveal_strlit("menus_buttons_xbox_RB.png");
    reveal_strlit("menus_buttons_xbox_LT.png");
    reveal_strlit("menus_buttons_xbox_RT.png");
    reveal_strlit("menus_buttons_xbox_LSB_allGrey.png");
    reveal_strlit("menus_buttons_xbox_LSB_white.png");
    reveal_strlit("Empty.png");
    assert(image_file(0)[19] == 'A' && image_file(0).len() == 24);
    assert(image_file(1)[19] == 'B' && image_file(1).len() == 24);
    assert(image_file(2)[19] == 'X' && image_file(2).len() == 24);
    assert(image_file(3)[19] == 'Y' && image_file(3).len() == 24);
    assert(image_file(4)[19] == 'L' && image_file(4)[20] == 'B' && image_file(4).len() == 25);
    assert(image_file(5)[19] == 'R' && image_file(5)[20] == 'B' && image_file(5).len() == 25);
    assert(image_file(6)[19] == 'L' && image_file(6)[20] == 'T' && image_file(6).len() == 25);
    assert(image_file(7)[19] == 'R' && image_file(7)[20] == 'T' && image_file(7).len() == 25);
    assert(image_file(8).len() == 34);
    assert(image_file(9).len() == 32);
    assert(image_file(10).len() == 9);
}

proof fn lemma_image_from(i: int, j: nat)
    requires
        j <= i < IMAGE_COUNT,
    ensures
        image_from(image_file(i), j) == Some(i as usize),
    decreases i - j,
{
    if j < i {
        lemma_image_names(i);
        assert(image_file(j as int) != image_file(i));
        lemma_image_from(i, j + 1);
    }
}

/// Every image of the skin is found under its name, whatever query follows.
pub proof fn lemma_images_found(i: int, query: Seq<char>)
    requires
        0 <= i < IMAGE_COUNT,
        query.len() == 0 || query[0] == '?',
    ensures
        ({
            let url = IMAGE_PREFIX@ + image_file(i) + query;
            routed(path_of(url), wants_labels(query_of(url))) == Route::Document(
                Resource::Image(i as usize),
            )
        }),
{
    let path = IMAGE_PREFIX@ + image_file(i);
    let url = path + query;
    lemma_image_names(i);
    lemma_image_from(i, 0);
    reveal_strlit("/skin/images/");
    reveal_strlit("/stream");
    reveal_strlit("/events");
    reveal_strlit("/");
    reveal_strlit("/skin");
    reveal_strlit("/skin/skin.css");
    reveal_strlit("/fonts/teko.ttf");
    assert forall|k: int| 0 <= k < path.len() implies url[k] != '?' by {
        if k < IMAGE_PREFIX@.len() {
            assert(url[k] == IMAGE_PREFIX@[k]);
        } else {
            assert(url[k] == image_file(i)[k - IMAGE_PREFIX@.len()]);
        }
    }
    crate::text::lemma_find_at(url, '?', path.len());
    assert(path_of(url) == path);
    assert(path.take(IMAGE_PREFIX@.len() as int) == IMAGE_PREFIX@);
    assert(path.skip(IMAGE_PREFIX@.len() as int) == image_file(i));
    assert(IMAGE_PREFIX@.len() == 13);
    assert(path[6] == 'i' && path[1] == 's' && path[2] == 'k');
    assert("/stream"@[2] == 't' && "/events"@[1] == 'e' && "/fonts/teko.ttf"@[1] == 'f');
    assert("/"@.len() == 1 && "/skin"@.len() == 5 && "/skin/skin.css"@[6] == 's');
}

/// A query changes what a request gets on the start page only.
pub proof fn lemma_query_elsewhere(a: Seq<char>, b: Seq<char>)
    requires
        path_of(a) == path_of(b),
        path_of(a) != "/"@,
    ensures
        routed(path_of(a), wants_labels(query_of(a))) == routed(
            path_of(b),
            wants_labels(query_of(b)),
        ),
{
}

/// What a client has seen after the first `n` of `frames`, each a number and an event.
pub open spec fn seen_through(frames: Seq<(u64, Seq<char>)>, n: nat) -> Seen
    decreases n,
{
    if n == 0 {
        (0, None)
    } else {
        seen_after(seen_through(frames, (n - 1) as nat), frames[n - 1].0, frames[n - 1].1)
    }
}

/// The events that a client is sent over the first `n` of `frames`.
pub open spec fn sent(frames: Seq<(u64, Seq<char>)>, n: nat) -> Seq<Seq<char>>
    decreases n,
{
    if n == 0 {
        seq![]
    } else {
        let before = sent(frames, (n - 1) as nat);
        let (seq, event) = frames[n - 1];
        if news(seen_through(frames, (n - 1) as nat), seq, event) {
            before.push(event)
        } else {
            before
        }
    }
}

proof fn lemma_last_sent(frames: Seq<(u64, Seq<char>)>, n: nat)
    ensures
        seen_through(frames, n).1 == (if sent(frames, n).len() == 0 {
            None
        } else {
            Some(sent(frames, n).last())
        }),
    decreases n,
{
    if n > 0 {
        lemma_last_sent(frames, (n - 1) as nat);
    }
}

/// A client is never sent the same event twice in a row.
pub proof fn lemma_events_change(frames: Seq<(u64, Seq<char>)>, n: nat, i: int)
    requires
        0 < i < sent(frames, n).len(),
    ensures
        sent(frames, n)[i - 1] != sent(frames, n)[i],
    decreases n,
{
    let m = (n - 1) as nat;
    lemma_last_sent(frames, m);
    if i < sent(frames, m).len() {
        lemma_events_change(frames, m, i);
    }
}

/// A client that sees numbered frames is up to date: the event sent last is that of the latest
/// frame. Frame numbers go up, so no frame has the number of the one before it.
pub proof fn lemma_events_current(frames: Seq<(u64, Seq<char>)>, n: nat)
    requires
        0 < n <= frames.len(),
        frames[0].0 != 0,
        forall|i: int| 0 < i < n ==> (#[trigger] frames[i]).0 != frames[i - 1].0,
    ensures
        sent(frames, n).len() > 0,
        sent(frames, n).last() == frames[n - 1].1,
{
    let m = (n - 1) as nat;
    lemma_last_sent(frames, n);
    assert(m > 0 ==> seen_through(frames, m).0 == frames[m - 1].0);
    assert(frames[m as int].0 != seen_through(frames, m).0);
}

/// What a client of the stream is sent for a frame, given the number of the frame sent last.
pub open spec fn streamed(last: u64, frame: (u64, Seq<u8>)) -> Seq<u8> {
    if frame.0 != last {
        part(frame.1)
    } else {
        seq![]
    }
}

/// All that a client of the stream is sent over the first `n` of `frames`, each a number and an
/// image.
pub open spec fn stream(frames: Seq<(u64, Seq<u8>)>, n: nat) -> Seq<u8>
    decreases n,
{
    if n == 0 {
        vstd::utf8::encode_utf8(stream_opening())
    } else {
        let last = if n == 1 {
            0
        } else {
            frames[n - 2].0
        };
        stream(frames, (n - 1) as nat) + streamed(last, frames[n - 1])
    }
}

/// The boundary at the end of the head and of every part.
pub open spec fn boundary_line() -> Seq<u8> {
    vstd::utf8::encode_utf8("--"@ + BOUNDARY@ + "\r\n"@)
}

/// Whether `bytes` end in `end`.
pub open spec fn ends_in(bytes: Seq<u8>, end: Seq<u8>) -> bool {
    exists|rest: Seq<u8>| bytes == #[trigger] (rest + end)
}

proof fn lemma_encode_concat(a: Seq<char>, b: Seq<char>)
    ensures
        vstd::utf8::encode_utf8(a + b) == vstd::utf8::encode_utf8(a) + vstd::utf8::encode_utf8(b),
    decreases a.len(),
{
    if a.len() == 0 {
        assert(a + b == b);
    } else {
        assert((a + b).drop_first() == a.drop_first() + b);
        lemma_encode_concat(a.drop_first(), b);
    }
}

proof fn lemma_ends_in(first: Seq<char>, line: Seq<char>)
    ensures
        ends_in(vstd::utf8::encode_utf8(first + line), vstd::utf8::encode_utf8(line)),
{
    lemma_encode_concat(first, line);
}

/// Whatever a client of the stream has been sent so far ends in a boundary: no image is left open
/// until the next one comes.
pub proof fn lemma_stream_closed(frames: Seq<(u64, Seq<u8>)>, n: nat)
    ensures
        ends_in(stream(frames, n), boundary_line()),
    decreases n,
{
    let line = "--"@ + BOUNDARY@ + "\r\n"@;
    if n == 0 {
        let first =
            "HTTP/1.1 200 OK\r\nContent-Type: multipart/x-mixed-replace; boundary="@ + BOUNDARY@
            + "\r\nCache-Control: no-store\r\nConnection: close\r\n\r\n"@;
        reveal_strlit("\r\nCache-Control: no-store\r\nConnection: close\r\n\r\n--");
        reveal_strlit("\r\nCache-Control: no-store\r\nConnection: close\r\n\r\n");
        reveal_strlit("--");
        assert("\r\nCache-Control: no-store\r\nConnection: close\r\n\r\n--"@
            == "\r\nCache-Control: no-store\r\nConnection: close\r\n\r\n"@ + "--"@);
        assert(stream_opening() == first + line);
        lemma_ends_in(first, line);
    } else {
        let m = (n - 1) as nat;
        lemma_stream_closed(frames, m);
        let last = if n == 1 {
            0
        } else {
            frames[n - 2].0
        };
        if frames[n - 1].0 != last {
            let png = frames[n - 1].1;
            reveal_strlit("\r\n--");
            reveal_strlit("\r\n");
            reveal_strlit("--");
            assert("\r\n--"@ == "\r\n"@ + "--"@);
            assert(closing() == "\r\n"@ + line);
            lemma_encode_concat("\r\n"@, line);
            let rest = stream(frames, m) + vstd::utf8::encode_utf8(part_opening(png.len())) + png
                + vstd::utf8::encode_utf8("\r\n"@);
            assert(stream(frames, n) == rest + boundary_line());
        } else {
            assert(stream(frames, n) == stream(frames, m));
        }
    }
}

/// Every frame with a number of its own is streamed: the stream is its head, and then the part of
/// each image in turn.
pub proof fn lemma_frames_streamed(frames: Seq<(u64, Seq<u8>)>, n: nat)
    requires
        0 < n <= frames.len(),
        frames[0].0 != 0,
        forall|i: int| 0 < i < n ==> (#[trigger] frames[i]).0 != frames[i - 1].0,
    ensures
        stream(frames, n) == vstd::utf8::encode_utf8(stream_opening()) + Seq::new(
            n,
            |i: int| part(frames[i].1),
        ).flatten(),
    decreases n,
{
    let head = vstd::utf8::encode_utf8(stream_opening());
    let m = (n - 1) as nat;
    let parts = Seq::new(n, |i: int| part(frames[i].1));
    let before = Seq::new(m, |i: int| part(frames[i].1));
    let new = part(frames[n - 1].1);
    assert(parts == before.push(new));
    before.lemma_flatten_push(new);
    if n == 1 {
        assert(before.flatten() == Seq::<u8>::empty());
    } else {
        lemma_frames_streamed(frames, m);
        assert(frames[n - 1].0 != frames[n - 2].0);
    }
    assert(stream(frames, n) == stream(frames, m) + new);
    assert(head + parts.flatten() == head + before.flatten() + new);
}

} // verus!
