use obs_gamepad::canvas::{blank, put_pixel};
use obs_gamepad::gamepad::Gamepad;
use obs_gamepad::layout::{Config, Inputs};
use obs_gamepad::web::{
    banner, content_type, image_name, part_header, publish, publish_encoded, republish, route,
    stream_head, stream_part, stream_trailer, tick, EventFeed, FeedStep, Frame, Resource, Route,
    StreamFeed, BOUNDARY, EVENTS_HEAD, IMAGE_COUNT,
};
use obs_gamepad::xinput::{XInput, XInputGamepad, XInputSlot};

#[test]
fn endpoints_are_routed() {
    assert_eq!(route("/stream"), Route::Stream);
    assert_eq!(route("/events"), Route::Events);
    assert_eq!(route("/"), Route::Document(Resource::Index));
    assert_eq!(route("/?labels"), Route::Document(Resource::Labels));
    assert_eq!(route("/?labels=pressed"), Route::Document(Resource::Labels));
    assert_eq!(route("/skin"), Route::Document(Resource::Skin));
    assert_eq!(route("/skin?hide=lb,start"), Route::Document(Resource::Skin));
    assert_eq!(route("/skin/skin.css"), Route::Document(Resource::SkinStyle));
    assert_eq!(route("/fonts/teko.ttf"), Route::Document(Resource::Font));
    for other in ["", "/x", "/skin/", "/skin/images/", "/Stream", "/stream/", "labels", "?labels"] {
        assert_eq!(route(other), Route::NotFound, "{other}");
    }
}

#[test]
fn labels_can_stand_anywhere_in_the_query() {
    let labels = Route::Document(Resource::Labels);
    let index = Route::Document(Resource::Index);
    for q in ["labels", "a&labels", "labels&b", "a=1&labels=&c", "&labels", "labels=x=y", "a?b&labels"] {
        assert_eq!(route(&format!("/?{q}")), labels, "{q}");
    }
    for q in ["", "label", "labelsx", "a=labels", "Labels", "a&b", "labels?", "?labels", "xlabels="] {
        assert_eq!(route(&format!("/?{q}")), index, "{q}");
    }
    assert_eq!(route("/stream?labels"), Route::Stream);
    assert_eq!(route("/events?labels"), Route::Events);
}

#[test]
fn every_skin_image_is_found() {
    let names = [
        "menus_buttons_xbox_A.png",
        "menus_buttons_xbox_B.png",
        "menus_buttons_xbox_X.png",
        "menus_buttons_xbox_Y.png",
        "menus_buttons_xbox_LB.png",
        "menus_buttons_xbox_RB.png",
        "menus_buttons_xbox_LT.png",
        "menus_buttons_xbox_RT.png",
        "menus_buttons_xbox_LSB_allGrey.png",
        "menus_buttons_xbox_LSB_white.png",
        "Empty.png",
    ];
    assert_eq!(IMAGE_COUNT, names.len());
    for (i, name) in names.iter().enumerate() {
        assert_eq!(image_name(i), *name);
        assert_eq!(route(&format!("/skin/images/{name}")), Route::Document(Resource::Image(i)));
        assert_eq!(route(&format!("/skin/images/{name}?v=2")), Route::Document(Resource::Image(i)));
    }
    assert_eq!(route("/skin/images/empty.png"), Route::NotFound);
    assert_eq!(route("/skin/images/Empty.png/"), Route::NotFound);
}

#[test]
fn documents_have_media_types() {
    assert_eq!(content_type(Resource::Index), "text/html; charset=utf-8");
    assert_eq!(content_type(Resource::Labels), "text/html; charset=utf-8");
    assert_eq!(content_type(Resource::Skin), "text/html; charset=utf-8");
    assert_eq!(content_type(Resource::SkinStyle), "text/css; charset=utf-8");
    assert_eq!(content_type(Resource::Font), "font/ttf");
    assert_eq!(content_type(Resource::Image(4)), "image/png");
}

#[test]
fn publishing_makes_a_new_frame() {
    let mut frame = Frame::new();
    assert_eq!((frame.seq, frame.png.len(), frame.event.len()), (0, 0, 0));
    assert!(publish_encoded(&mut frame, Some(vec![1, 2, 3]), "e".to_owned()));
    assert_eq!(frame.seq, 1);
    assert_eq!(frame.png, vec![1, 2, 3]);
    assert_eq!(frame.event, "e");
    assert!(!publish_encoded(&mut frame, None, "f".to_owned()));
    assert_eq!(frame.seq, 1);
    assert_eq!(frame.png, vec![1, 2, 3]);
    assert_eq!(frame.event, "e");
}

#[test]
fn a_published_image_is_a_png_of_its_pixels() {
    let mut img = blank(3, 2).unwrap();
    put_pixel(&mut img, 4, 10, 20, 30, 200);
    let mut frame = Frame::new();
    assert!(publish(&mut frame, &img, "x".to_owned()));
    assert_eq!(frame.seq, 1);
    assert_eq!(frame.event, "x");
    assert_eq!(frame.png[..4], [0x89, b'P', b'N', b'G']);
    let back = tiny_skia::Pixmap::decode_png(&frame.png).unwrap();
    assert_eq!((back.width(), back.height()), (3, 2));
    assert_eq!(back.pixels()[4].alpha(), 200);
    assert_eq!(back.pixels()[0].alpha(), 0);
    assert_eq!(frame.png, img.encode_png().unwrap());
}

#[test]
fn republishing_counts_without_changing_the_frame() {
    let mut frame = Frame::new();
    assert!(!republish(&mut frame));
    assert_eq!(frame.seq, 0);
    frame.png = vec![9];
    frame.event = "e".to_owned();
    assert!(republish(&mut frame));
    assert!(republish(&mut frame));
    assert_eq!(frame.seq, 2);
    assert_eq!(frame.png, vec![9]);
    assert_eq!(frame.event, "e");
}

fn sent(step: FeedStep) -> Option<String> {
    match step {
        FeedStep::Send(text) => Some(text),
        FeedStep::Skip => None,
        FeedStep::Wait => panic!("nothing new"),
    }
}

#[test]
fn only_changed_events_are_sent() {
    let mut frame = Frame::new();
    let mut feed = EventFeed::new();
    assert!(matches!(feed.step(&frame), FeedStep::Wait));
    publish_encoded(&mut frame, Some(vec![1]), "a".to_owned());
    assert_eq!(sent(feed.step(&frame)).as_deref(), Some("data: a\n\n"));
    assert!(matches!(feed.step(&frame), FeedStep::Wait));
    republish(&mut frame);
    assert_eq!(sent(feed.step(&frame)), None);
    assert!(matches!(feed.step(&frame), FeedStep::Wait));
    publish_encoded(&mut frame, Some(vec![2]), "b".to_owned());
    assert_eq!(sent(feed.step(&frame)).as_deref(), Some("data: b\n\n"));
    publish_encoded(&mut frame, Some(vec![3]), "a".to_owned());
    assert_eq!(sent(feed.step(&frame)).as_deref(), Some("data: a\n\n"));
    assert_eq!(feed.last_seq, 4);
    assert_eq!(feed.last_event.as_deref(), Some("a"));
}

#[test]
fn the_first_event_is_sent_even_if_empty() {
    let mut frame = Frame::new();
    let mut feed = EventFeed::new();
    publish_encoded(&mut frame, Some(vec![1]), String::new());
    assert_eq!(sent(feed.step(&frame)).as_deref(), Some("data: \n\n"));
    republish(&mut frame);
    assert_eq!(sent(feed.step(&frame)), None);
}

#[test]
fn a_slow_client_gets_the_latest_event() {
    let mut frame = Frame::new();
    let mut feed = EventFeed::new();
    for (i, e) in ["a", "b", "c", "b"].iter().enumerate() {
        publish_encoded(&mut frame, Some(vec![i as u8]), (*e).to_owned());
    }
    assert_eq!(sent(feed.step(&frame)).as_deref(), Some("data: b\n\n"));
}

#[test]
fn every_frame_is_streamed_once() {
    let mut frame = Frame::new();
    let mut feed = StreamFeed::new();
    assert_eq!(feed.step(&frame), None);
    publish_encoded(&mut frame, Some(vec![0xff; 1234]), String::new());
    let mut part = b"Content-Type: image/png\r\nContent-Length: 1234\r\n\r\n".to_vec();
    part.extend([0xff; 1234]);
    part.extend(b"\r\n--obsgamepadframe\r\n");
    assert_eq!(feed.step(&frame), Some(part));
    assert_eq!(feed.step(&frame), None);
    republish(&mut frame);
    assert!(feed.step(&frame).is_some());
    assert_eq!(feed.last_seq, 2);
}

#[test]
fn stream_texts_are_framed_by_the_boundary() {
    assert_eq!(BOUNDARY, "obsgamepadframe");
    assert_eq!(
        stream_head(),
        "HTTP/1.1 200 OK\r\nContent-Type: multipart/x-mixed-replace; boundary=obsgamepadframe\r\n\
         Cache-Control: no-store\r\nConnection: close\r\n\r\n--obsgamepadframe\r\n"
    );
    assert_eq!(stream_trailer(), "\r\n--obsgamepadframe\r\n");
    assert_eq!(part_header(&vec![]), "Content-Type: image/png\r\nContent-Length: 0\r\n\r\n");
    assert_eq!(
        EVENTS_HEAD,
        "HTTP/1.1 200 OK\r\nContent-Type: text/event-stream\r\nCache-Control: no-store\r\n\
         Connection: close\r\n\r\n"
    );
}

#[test]
fn the_banner_says_where_the_overlay_is() {
    let list = "  rendered overlay:  /stream   (transparent MJPEG, point OBS here)\n\
        \x20 CSS-skin overlay:  /skin     (Xbox fight-stick skin)\n\
        \x20 labeled overlay:   /?labels  (button names, for reference)\n";
    assert_eq!(
        banner(&Some("192.168.0.7".to_owned()), 8080),
        format!(
            "Serving overlay at http://192.168.0.7:8080 (also reachable from other devices on \
             your network)\n{list}"
        )
    );
    assert_eq!(
        banner(&None, 9000),
        format!("Serving overlay on port 9000 at http://<this-machine-ip>:9000\n{list}")
    );
}

#[test]
fn a_stream_is_its_head_and_a_part_for_every_image() {
    let mut frame = Frame::new();
    let mut feed = StreamFeed::new();
    let mut sent = stream_head().into_bytes();
    let mut expected = sent.clone();
    let line = format!("--{BOUNDARY}\r\n").into_bytes();
    assert!(sent.ends_with(&line));
    for n in 0..5u8 {
        publish_encoded(&mut frame, Some(vec![n; n as usize]), String::new());
        for _ in 0..2 {
            sent.extend(feed.step(&frame).unwrap_or_default());
            assert!(sent.ends_with(&line));
        }
        expected.extend(stream_part(&vec![n; n as usize]));
    }
    assert_eq!(sent, expected);
}

#[test]
fn a_tick_redraws_changes_and_resends_the_rest() {
    let mut gamepad: Gamepad<XInput> = Gamepad::default();
    let mut frame = Frame::new();
    // Nothing to show yet.
    assert!(!tick(&mut gamepad, &mut frame));
    assert_eq!(frame.seq, 0);
    publish_encoded(&mut frame, Some(vec![1]), "e".to_owned());
    assert!(!tick(&mut gamepad, &mut frame));
    assert_eq!(frame.seq, 2);

    let inputs = Inputs { buttons: vec![], sticks: vec![], axes: vec![] };
    gamepad.load(Config { inputs, show_labels: true }, XInputSlot { slot: 0, available: true }).unwrap();
    let g = XInputGamepad {
        buttons: 1,
        left_trigger: 0,
        right_trigger: 0,
        thumb_lx: 0,
        thumb_ly: 0,
        thumb_rx: 0,
        thumb_ry: 0,
    };
    gamepad.backend.as_mut().unwrap().observe(Some(g));
    // No item shows the button.
    assert!(!tick(&mut gamepad, &mut frame));
    assert_eq!(frame.seq, 3);
}

#[test]
fn an_image_that_cannot_be_encoded_keeps_the_frame() {
    let data = [0u8; 15];
    let img = tiny_skia::PixmapRef::from_bytes(&data, 3, 1).unwrap().to_owned();
    let mut frame = Frame::new();
    publish_encoded(&mut frame, Some(vec![1, 2]), "a".to_owned());
    assert!(!publish(&mut frame, &img, "b".to_owned()));
    assert_eq!(frame.seq, 1);
    assert_eq!(frame.png, vec![1, 2]);
    assert_eq!(frame.event, "a");
}
