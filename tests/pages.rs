use wikt::page::{Event, Page};

fn s(x: &str) -> String {
    x.to_string()
}

fn run(events: Vec<Event>) -> Page {
    let mut p = Page::Idle;
    for e in events {
        p = Page::parse(p, e);
    }
    p
}

#[test]
fn recognizes_one_page() {
    let p = run(vec![
        Event::StartElement(s("page")),
        Event::StartElement(s("title")),
        Event::Characters(s("T")),
        Event::EndElement(s("title")),
        Event::StartElement(s("text")),
        Event::Characters(s("X Y")),
        Event::EndElement(s("text")),
    ]);
    match p {
        Page::Texted { title, text } => {
            assert_eq!(title, "T");
            assert_eq!(text, "X Y");
        }
        _ => panic!("page not recognized"),
    }
}

#[test]
fn fragments_are_joined_by_spaces() {
    let p = run(vec![
        Event::StartElement(s("page")),
        Event::StartElement(s("title")),
        Event::Characters(s("A")),
        Event::CData(s("B")),
        Event::EndElement(s("title")),
        Event::StartElement(s("text")),
        Event::EndElement(s("text")),
    ]);
    match p {
        Page::Texted { title, text } => {
            assert_eq!(title, "A B");
            assert_eq!(text, "");
        }
        _ => panic!("page not recognized"),
    }
}

#[test]
fn texted_returns_to_idle_and_page_end_resets() {
    let p = Page::parse(Page::Texted { title: s("t"), text: s("x") }, Event::Other);
    assert!(matches!(p, Page::Idle));
    let p = Page::parse(Page::Titled(s("t")), Event::EndElement(s("page")));
    assert!(matches!(p, Page::Idle));
    let p = Page::parse(Page::Open, Event::StartElement(s("text")));
    assert!(matches!(p, Page::Open));
}
